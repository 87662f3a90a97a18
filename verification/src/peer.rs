//! The peer table's rows, and their wire format.
use vstd::prelude::*;

use crate::bytes;
use crate::crypto::PeerId;
use crate::event;

verus! {

/// A peer we have heard from.
#[derive(Debug)]
pub struct Peer {
    pub id: PeerId,
    pub nickname: String,
    pub rssi: i8,
    pub last_seen_ms: u64,
    pub hops: u8,
}

/// A peer, with its nickname as a sequence.
pub struct PeerModel {
    pub id: PeerId,
    pub nickname: Seq<char>,
    pub rssi: i8,
    pub last_seen_ms: u64,
    pub hops: u8,
}

impl View for Peer {
    type V = PeerModel;

    open spec fn view(&self) -> PeerModel {
        PeerModel {
            id: self.id,
            nickname: self.nickname@,
            rssi: self.rssi,
            last_seen_ms: self.last_seen_ms,
            hops: self.hops,
        }
    }
}

impl Clone for Peer {
    fn clone(&self) -> (copy: Self)
        ensures
            copy@ == self@,
    {
        Peer {
            id: self.id,
            nickname: self.nickname.clone(),
            rssi: self.rssi,
            last_seen_ms: self.last_seen_ms,
            hops: self.hops,
        }
    }
}

/// A list of peers, each taken by its view.
pub open spec fn peer_models(peers: Seq<Peer>) -> Seq<PeerModel> {
    peers.map_values(|peer: Peer| peer@)
}

impl PeerModel {
    /// A peer on the wire: id, signal strength, hops, two bytes of padding, time
    /// last seen, nickname behind its length.
    pub open spec fn wire(self) -> Seq<u8> {
        self.id@ + seq![event::signed_byte(self.rssi), self.hops, 0u8, 0u8] + bytes::le_bytes(
            self.last_seen_ms as nat,
            8,
        ) + event::prefixed(vstd::utf8::encode_utf8(self.nickname))
    }
}

/// The rows of a peer table on the wire, one behind the other.
pub open spec fn rows(peers: Seq<PeerModel>) -> Seq<u8>
    decreases peers.len(),
{
    if peers.len() == 0 {
        Seq::empty()
    } else {
        rows(peers.drop_last()) + peers.last().wire()
    }
}

/// A peer table on the wire: the 32-bit number of peers, then a row for each.
pub open spec fn table_wire(peers: Seq<PeerModel>) -> Seq<u8> {
    bytes::le_bytes(peers.len(), 4) + rows(peers)
}

/// Serialise a peer table into one byte string.
pub fn encode_peers(peers: &[Peer]) -> (wire: Vec<u8>)
    ensures
        wire@ == table_wire(peer_models(peers@)),
{
    let ghost models = peer_models(peers@);
    let mut wire: Vec<u8> = Vec::new();
    bytes::put_le(&mut wire, peers.len() as u64, 4);
    let ghost count = wire@;
    let mut i: usize = 0;
    assert(wire@ =~= count + rows(models.take(0)));
    assert(count =~= bytes::le_bytes(models.len(), 4));
    while i < peers.len()
        invariant
            i <= peers@.len(),
            models == peer_models(peers@),
            wire@ == count + rows(models.take(i as int)),
        decreases peers@.len() - i,
    {
        let ghost before = wire@;
        bytes::put_all(&mut wire, &peers[i].id);
        wire.push(event::byte_of(peers[i].rssi));
        wire.push(peers[i].hops);
        wire.push(0);
        wire.push(0);
        bytes::put_le(&mut wire, peers[i].last_seen_ms, 8);
        event::put_bytes(&mut wire, peers[i].nickname.as_str().as_bytes());
        proof {
            let longer = models.take(i + 1);
            assert(longer.drop_last() =~= models.take(i as int));
            assert(longer.last() == models[i as int]);
            assert(wire@ =~= before + models[i as int].wire());
            assert(wire@ =~= count + rows(longer));
        }
        i = i + 1;
    }
    assert(models.take(i as int) =~= models);
    wire
}

// ---------------------------------------------------------------------------
// Laws
// ---------------------------------------------------------------------------

/// Where each field of a peer stands in its row.
pub proof fn law_row_layout(peer: PeerModel)
    requires
        vstd::utf8::encode_utf8(peer.nickname).len() <= u32::MAX,
    ensures
        ({
            let wire = peer.wire();
            let text = vstd::utf8::encode_utf8(peer.nickname);
            &&& wire.len() == 48 + text.len()
            &&& wire.subrange(0, 32) == peer.id@
            &&& wire[32] == peer.rssi || wire[32] == peer.rssi + 256
            &&& wire[33] == peer.hops
            &&& wire[34] == 0
            &&& wire[35] == 0
            &&& bytes::le_value(wire.subrange(36, 44)) == peer.last_seen_ms
            &&& bytes::le_value(wire.subrange(44, 48)) == text.len()
            &&& wire.skip(48) == text
        }),
{
    let wire = peer.wire();
    let text = vstd::utf8::encode_utf8(peer.nickname);
    bytes::lemma_le_limits();
    bytes::lemma_le_bytes_len(peer.last_seen_ms as nat, 8);
    bytes::lemma_le_round_trip(peer.last_seen_ms as nat, 8);
    bytes::lemma_le_bytes_len(text.len(), 4);
    bytes::lemma_le_round_trip(text.len(), 4);
    assert(wire.subrange(0, 32) =~= peer.id@);
    assert(wire.subrange(36, 44) =~= bytes::le_bytes(peer.last_seen_ms as nat, 8));
    assert(wire.subrange(44, 48) =~= bytes::le_bytes(text.len(), 4));
    assert(wire.skip(48) =~= text);
}

/// The first row stands first.
proof fn lemma_first_row(peers: Seq<PeerModel>)
    requires
        peers.len() > 0,
    ensures
        rows(peers) == peers[0].wire() + rows(peers.drop_first()),
    decreases peers.len(),
{
    if peers.len() == 1 {
        assert(peers.drop_last() =~= Seq::<PeerModel>::empty());
        assert(peers.drop_first() =~= Seq::<PeerModel>::empty());
        assert(rows(peers.drop_last()) + peers.last().wire() =~= peers[0].wire() + rows(
            peers.drop_first(),
        ));
    } else {
        let rest = peers.drop_first();
        lemma_first_row(peers.drop_last());
        assert(rest.drop_last() =~= peers.drop_last().drop_first());
        assert(rest.last() == peers.last());
        assert(rows(rest) == rows(rest.drop_last()) + peers.last().wire());
        assert(rows(peers) =~= peers[0].wire() + rows(rest));
    }
}

/// A table says how many peers it has, and then one row for each, in order: two tables
/// with the same bytes are the same table.
pub proof fn law_table_is_unambiguous(a: Seq<PeerModel>, b: Seq<PeerModel>)
    requires
        a.len() <= u32::MAX,
        b.len() <= u32::MAX,
        forall|i: int|
            0 <= i < a.len() ==> vstd::utf8::encode_utf8((#[trigger] a[i]).nickname).len()
                <= u32::MAX,
        forall|i: int|
            0 <= i < b.len() ==> vstd::utf8::encode_utf8((#[trigger] b[i]).nickname).len()
                <= u32::MAX,
        table_wire(a) == table_wire(b),
    ensures
        a == b,
        bytes::le_value(table_wire(a).subrange(0, 4)) == a.len(),
{
    bytes::lemma_le_limits();
    bytes::lemma_le_bytes_len(a.len(), 4);
    bytes::lemma_le_bytes_len(b.len(), 4);
    bytes::lemma_le_round_trip(a.len(), 4);
    bytes::lemma_le_round_trip(b.len(), 4);
    assert(table_wire(a).subrange(0, 4) =~= bytes::le_bytes(a.len(), 4));
    assert(table_wire(b).subrange(0, 4) =~= bytes::le_bytes(b.len(), 4));
    assert(table_wire(a).skip(4) =~= rows(a));
    assert(table_wire(b).skip(4) =~= rows(b));
    lemma_rows_unambiguous(a, b);
}

proof fn lemma_rows_unambiguous(a: Seq<PeerModel>, b: Seq<PeerModel>)
    requires
        a.len() == b.len(),
        forall|i: int|
            0 <= i < a.len() ==> vstd::utf8::encode_utf8((#[trigger] a[i]).nickname).len()
                <= u32::MAX,
        forall|i: int|
            0 <= i < b.len() ==> vstd::utf8::encode_utf8((#[trigger] b[i]).nickname).len()
                <= u32::MAX,
        rows(a) == rows(b),
    ensures
        a == b,
    decreases a.len(),
{
    if a.len() == 0 {
        assert(a =~= b);
    } else {
        lemma_first_row(a);
        lemma_first_row(b);
        let first = a[0].wire();
        let other = b[0].wire();
        let all = rows(a);
        law_row_layout(a[0]);
        law_row_layout(b[0]);
        assert(all.subrange(44, 48) =~= first.subrange(44, 48));
        assert(all.subrange(44, 48) =~= other.subrange(44, 48));
        assert(first.len() == other.len());
        assert(first =~= all.take(first.len() as int));
        assert(other =~= all.take(first.len() as int));
        lemma_row_unambiguous(a[0], b[0]);
        assert(rows(a.drop_first()) =~= all.skip(first.len() as int));
        assert(rows(b.drop_first()) =~= all.skip(first.len() as int));
        let rest_a = a.drop_first();
        let rest_b = b.drop_first();
        assert forall|i: int| 0 <= i < rest_a.len() implies vstd::utf8::encode_utf8(
            (#[trigger] rest_a[i]).nickname,
        ).len() <= u32::MAX by {
            assert(rest_a[i] == a[i + 1]);
        }
        assert forall|i: int| 0 <= i < rest_b.len() implies vstd::utf8::encode_utf8(
            (#[trigger] rest_b[i]).nickname,
        ).len() <= u32::MAX by {
            assert(rest_b[i] == b[i + 1]);
        }
        lemma_rows_unambiguous(rest_a, rest_b);
        assert forall|i: int| 0 <= i < a.len() implies a[i] == b[i] by {
            if i > 0 {
                assert(rest_a[i - 1] == rest_b[i - 1]);
            }
        }
        assert(a =~= b);
    }
}

proof fn lemma_row_unambiguous(a: PeerModel, b: PeerModel)
    requires
        vstd::utf8::encode_utf8(a.nickname).len() <= u32::MAX,
        vstd::utf8::encode_utf8(b.nickname).len() <= u32::MAX,
        a.wire() == b.wire(),
    ensures
        a == b,
{
    law_row_layout(a);
    law_row_layout(b);
    vstd::utf8::encode_utf8_decode_utf8(a.nickname);
    vstd::utf8::encode_utf8_decode_utf8(b.nickname);
    assert(a.id =~= b.id);
    assert(a.wire()[32] == event::signed_byte(a.rssi));
    assert(b.wire()[32] == event::signed_byte(b.rssi));
}

} // verus!
