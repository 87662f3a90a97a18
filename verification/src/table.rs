//! A small table keyed by peer id.
use vstd::prelude::*;

use crate::bytes;
use crate::crypto::PeerId;

verus! {

/// Values by peer id. A mesh has few peers, so the table is a list.
pub struct Table<V> {
    entries: Vec<(PeerId, V)>,
}

/// `i` is the first place where `peer` stands.
spec fn stands_at<V>(entries: Seq<(PeerId, V)>, peer: PeerId, i: int) -> bool {
    &&& 0 <= i < entries.len()
    &&& entries[i].0 == peer
    &&& forall|j: int| 0 <= j < i ==> (#[trigger] entries[j]).0 != peer
}

spec fn place<V>(entries: Seq<(PeerId, V)>, peer: PeerId) -> int {
    choose|i: int| stands_at(entries, peer, i)
}

spec fn contents<V>(entries: Seq<(PeerId, V)>) -> Map<PeerId, V> {
    Map::new(
        |peer: PeerId| exists|i: int| stands_at(entries, peer, i),
        |peer: PeerId| entries[place(entries, peer)].1,
    )
}

impl<V> View for Table<V> {
    type V = Map<PeerId, V>;

    closed spec fn view(&self) -> Map<PeerId, V> {
        contents(self.entries@)
    }
}

impl<V> Table<V> {
    pub fn new() -> (table: Self)
        ensures
            table@ == Map::<PeerId, V>::empty(),
    {
        let table = Table { entries: Vec::new() };
        assert(table@ =~= Map::<PeerId, V>::empty());
        table
    }

    /// Where a peer stands.
    fn find(&self, peer: &PeerId) -> (at: Option<usize>)
        ensures
            match at {
                Some(i) => stands_at(self.entries@, *peer, i as int) && self@.contains_key(*peer)
                    && self@[*peer] == self.entries@[i as int].1,
                None => !self@.contains_key(*peer) && forall|j: int|
                    0 <= j < self.entries@.len() ==> (#[trigger] self.entries@[j]).0 != *peer,
            },
    {
        let mut i: usize = 0;
        while i < self.entries.len()
            invariant
                i <= self.entries@.len(),
                forall|j: int| 0 <= j < i ==> (#[trigger] self.entries@[j]).0 != *peer,
            decreases self.entries@.len() - i,
        {
            if bytes::same_32(&self.entries[i].0, peer) {
                proof {
                    assert(stands_at(self.entries@, *peer, i as int));
                    assert(place(self.entries@, *peer) == i as int);
                }
                return Some(i);
            }
            i = i + 1;
        }
        None
    }

    pub fn get(&self, peer: &PeerId) -> (value: Option<&V>)
        ensures
            match value {
                Some(value) => self@.contains_key(*peer) && self@[*peer] == *value,
                None => !self@.contains_key(*peer),
            },
    {
        match self.find(peer) {
            Some(at) => Some(&self.entries[at].1),
            None => None,
        }
    }

    pub fn contains(&self, peer: &PeerId) -> (found: bool)
        ensures
            found == self@.contains_key(*peer),
    {
        self.find(peer).is_some()
    }

    /// Put a value under a peer id, replacing the one that stands there.
    pub fn insert(&mut self, peer: PeerId, value: V)
        ensures
            final(self)@ == old(self)@.insert(peer, value),
    {
        let ghost before = self.entries@;
        match self.find(&peer) {
            Some(at) => {
                self.entries.set(at, (peer, value));
                proof {
                    lemma_contents_update(before, at as int, value);
                }
            },
            None => {
                self.entries.push((peer, value));
                proof {
                    lemma_contents_push(before, peer, value);
                }
            },
        }
    }
}

proof fn lemma_contents_update<V>(entries: Seq<(PeerId, V)>, at: int, value: V)
    requires
        0 <= at < entries.len(),
        stands_at(entries, entries[at].0, at),
    ensures
        contents(entries.update(at, (entries[at].0, value))) == contents(entries).insert(
            entries[at].0,
            value,
        ),
{
    let key = entries[at].0;
    let after = entries.update(at, (key, value));
    assert forall|peer: PeerId, i: int| #[trigger] stands_at(after, peer, i) == stands_at(
        entries,
        peer,
        i,
    ) by {
        if stands_at(entries, peer, i) {
            assert forall|j: int| 0 <= j < i implies (#[trigger] after[j]).0 != peer by {
                assert(entries[j].0 != peer);
            }
        }
        if stands_at(after, peer, i) {
            assert forall|j: int| 0 <= j < i implies (#[trigger] entries[j]).0 != peer by {
                assert(after[j].0 != peer);
            }
        }
    }
    assert forall|peer: PeerId| #[trigger]
        contents(after).contains_key(peer) == contents(entries).insert(
            key,
            value,
        ).contains_key(peer) by {
        if contents(after).contains_key(peer) {
            let i = choose|i: int| stands_at(after, peer, i);
            assert(stands_at(entries, peer, i));
        }
        if contents(entries).contains_key(peer) {
            let i = choose|i: int| stands_at(entries, peer, i);
            assert(stands_at(after, peer, i));
        }
        if peer == key {
            assert(stands_at(after, peer, at));
        }
    }
    assert forall|peer: PeerId| contents(after).contains_key(peer) implies #[trigger] contents(
        after,
    )[peer] == contents(entries).insert(key, value)[peer] by {
        let i = choose|i: int| stands_at(after, peer, i);
        assert(stands_at(entries, peer, i));
        assert(place(after, peer) == i);
        assert(place(entries, peer) == i);
        if peer == key {
            assert(i == at);
        } else {
            assert(i != at);
        }
    }
    assert(contents(after) =~= contents(entries).insert(key, value));
}

proof fn lemma_contents_push<V>(entries: Seq<(PeerId, V)>, key: PeerId, value: V)
    requires
        forall|j: int| 0 <= j < entries.len() ==> (#[trigger] entries[j]).0 != key,
    ensures
        contents(entries.push((key, value))) == contents(entries).insert(key, value),
{
    let after = entries.push((key, value));
    assert forall|peer: PeerId, i: int| stands_at(entries, peer, i) implies #[trigger] stands_at(
        after,
        peer,
        i,
    ) by {
        assert forall|j: int| 0 <= j < i implies (#[trigger] after[j]).0 != peer by {
            assert(entries[j].0 != peer);
        }
    }
    assert forall|peer: PeerId, i: int| #[trigger] stands_at(after, peer, i) && peer
        != key implies stands_at(entries, peer, i) by {
        assert forall|j: int| 0 <= j < i implies (#[trigger] entries[j]).0 != peer by {
            assert(after[j].0 != peer);
        }
    }
    assert(stands_at(after, key, entries.len() as int)) by {
        assert forall|j: int| 0 <= j < entries.len() implies (#[trigger] after[j]).0 != key by {
            assert(entries[j].0 != key);
        }
    }
    assert forall|peer: PeerId| #[trigger]
        contents(after).contains_key(peer) == contents(entries).insert(
            key,
            value,
        ).contains_key(peer) by {
        if contents(after).contains_key(peer) && peer != key {
            let i = choose|i: int| stands_at(after, peer, i);
            assert(stands_at(entries, peer, i));
        }
        if contents(entries).contains_key(peer) {
            let i = choose|i: int| stands_at(entries, peer, i);
            assert(stands_at(after, peer, i));
        }
    }
    assert forall|peer: PeerId| contents(after).contains_key(peer) implies #[trigger] contents(
        after,
    )[peer] == contents(entries).insert(key, value)[peer] by {
        if peer == key {
            assert(place(after, peer) == entries.len());
        } else {
            let i = choose|i: int| stands_at(after, peer, i);
            assert(stands_at(entries, peer, i));
            assert(place(after, peer) == i);
            assert(place(entries, peer) == i);
        }
    }
    assert(contents(after) =~= contents(entries).insert(key, value));
}

} // verus!
