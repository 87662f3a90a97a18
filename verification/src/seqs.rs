//! Lemmas about filtered sequences, for the tables that are kept as vectors.
use vstd::prelude::*;

verus! {

/// Filtering one more element.
pub proof fn lemma_filter_step<T>(s: Seq<T>, i: int, keep: spec_fn(T) -> bool)
    requires
        0 <= i < s.len(),
    ensures
        s.take(i + 1).filter(keep) == (if keep(s[i]) {
            s.take(i).filter(keep).push(s[i])
        } else {
            s.take(i).filter(keep)
        }),
{
    let longer = s.take(i + 1);
    assert(longer.drop_last() =~= s.take(i));
    assert(longer.last() == s[i]);
    reveal(Seq::filter);
}

/// Filtering around one element.
pub proof fn lemma_filter_around<T>(s: Seq<T>, i: int, keep: spec_fn(T) -> bool)
    requires
        0 <= i < s.len(),
    ensures
        s.filter(keep) == s.take(i).filter(keep) + (if keep(s[i]) {
            seq![s[i]]
        } else {
            Seq::empty()
        }) + s.skip(i + 1).filter(keep),
        s.remove(i).filter(keep) == s.take(i).filter(keep) + s.skip(i + 1).filter(keep),
{
    lemma_filter_step(s, i, keep);
    assert(s =~= s.take(i + 1) + s.skip(i + 1));
    Seq::filter_distributes_over_add(s.take(i + 1), s.skip(i + 1), keep);
    assert(s.remove(i) =~= s.take(i) + s.skip(i + 1));
    Seq::filter_distributes_over_add(s.take(i), s.skip(i + 1), keep);
    assert(s.filter(keep) =~= s.take(i).filter(keep) + (if keep(s[i]) {
        seq![s[i]]
    } else {
        Seq::empty()
    }) + s.skip(i + 1).filter(keep));
}

/// Filtering a sequence whose element `i` is replaced.
pub proof fn lemma_filter_update<T>(s: Seq<T>, i: int, x: T, keep: spec_fn(T) -> bool)
    requires
        0 <= i < s.len(),
    ensures
        s.update(i, x).filter(keep) == s.take(i).filter(keep) + (if keep(x) {
            seq![x]
        } else {
            Seq::empty()
        }) + s.skip(i + 1).filter(keep),
{
    let u = s.update(i, x);
    lemma_filter_around(u, i, keep);
    assert(u.take(i) =~= s.take(i));
    assert(u.skip(i + 1) =~= s.skip(i + 1));
}

/// Filtering a sequence with one more element in front.
pub proof fn lemma_filter_front<T>(x: T, s: Seq<T>, keep: spec_fn(T) -> bool)
    ensures
        (seq![x] + s).filter(keep) == (if keep(x) {
            seq![x]
        } else {
            Seq::empty()
        }) + s.filter(keep),
{
    Seq::filter_distributes_over_add(seq![x], s, keep);
    lemma_filter_step(seq![x], 0, keep);
    lemma_filter_none(seq![x].take(0), keep);
    assert(seq![x].take(1) =~= seq![x]);
    assert(seq![x].filter(keep) =~= (if keep(x) {
        seq![x]
    } else {
        Seq::empty()
    }));
}

/// Filtering a sequence with one more element at the end.
pub proof fn lemma_filter_push<T>(s: Seq<T>, x: T, keep: spec_fn(T) -> bool)
    ensures
        s.push(x).filter(keep) == (if keep(x) {
            s.filter(keep).push(x)
        } else {
            s.filter(keep)
        }),
{
    assert(s.push(x).drop_last() =~= s);
    reveal(Seq::filter);
}

/// A filter that every element passes changes nothing.
pub proof fn lemma_filter_all<T>(s: Seq<T>, keep: spec_fn(T) -> bool)
    requires
        forall|i: int| 0 <= i < s.len() ==> keep(#[trigger] s[i]),
    ensures
        s.filter(keep) == s,
    decreases s.len(),
{
    reveal(Seq::filter);
    if s.len() > 0 {
        let rest = s.drop_last();
        assert forall|i: int| 0 <= i < rest.len() implies keep(#[trigger] rest[i]) by {
            assert(rest[i] == s[i]);
        }
        lemma_filter_all(rest, keep);
        assert(keep(s.last()));
        assert(rest.push(s.last()) =~= s);
    }
}

/// A filter that no element passes leaves nothing.
pub proof fn lemma_filter_none<T>(s: Seq<T>, keep: spec_fn(T) -> bool)
    requires
        forall|i: int| 0 <= i < s.len() ==> !keep(#[trigger] s[i]),
    ensures
        s.filter(keep) == Seq::<T>::empty(),
    decreases s.len(),
{
    reveal(Seq::filter);
    if s.len() > 0 {
        let rest = s.drop_last();
        assert forall|i: int| 0 <= i < rest.len() implies !keep(#[trigger] rest[i]) by {
            assert(rest[i] == s[i]);
        }
        lemma_filter_none(rest, keep);
        assert(!keep(s.last()));
    } else {
        assert(s =~= Seq::<T>::empty());
    }
}

/// What a filter keeps stood in the sequence, and passes.
pub proof fn lemma_filter_members<T>(s: Seq<T>, keep: spec_fn(T) -> bool, i: int)
    requires
        0 <= i < s.filter(keep).len(),
    ensures
        keep(s.filter(keep)[i]),
        exists|j: int| 0 <= j < s.len() && s[j] == s.filter(keep)[i],
    decreases s.len(),
{
    reveal(Seq::filter);
    if s.len() > 0 {
        let rest = s.drop_last();
        if i < rest.filter(keep).len() {
            lemma_filter_members(rest, keep, i);
            let j = choose|j: int| 0 <= j < rest.len() && rest[j] == rest.filter(keep)[i];
            assert(s[j] == rest[j]);
        } else {
            assert(s[s.len() - 1] == s.last());
        }
    }
}

/// What a filter keeps stood in the sequence in the same order.
pub proof fn lemma_filter_order<T>(s: Seq<T>, keep: spec_fn(T) -> bool, i: int, j: int)
    requires
        0 <= i < j < s.filter(keep).len(),
    ensures
        exists|p: int, q: int|
            0 <= p < q < s.len() && #[trigger] s[p] == s.filter(keep)[i] && #[trigger] s[q]
                == s.filter(keep)[j],
    decreases s.len(),
{
    reveal(Seq::filter);
    let rest = s.drop_last();
    if j < rest.filter(keep).len() {
        lemma_filter_order(rest, keep, i, j);
        let (p, q) = choose|p: int, q: int|
            0 <= p < q < rest.len() && #[trigger] rest[p] == rest.filter(keep)[i]
                && #[trigger] rest[q] == rest.filter(keep)[j];
        assert(s[p] == rest[p] && s[q] == rest[q]);
    } else {
        lemma_filter_members(rest, keep, i);
        let p = choose|p: int| 0 <= p < rest.len() && rest[p] == rest.filter(keep)[i];
        let q = s.len() - 1;
        assert(s[p] == rest[p]);
        assert(s[q] == s.filter(keep)[j]);
    }
}

/// What passes a filter is in the outcome.
pub proof fn lemma_filter_keeps<T>(s: Seq<T>, keep: spec_fn(T) -> bool, i: int)
    requires
        0 <= i < s.len(),
        keep(s[i]),
    ensures
        exists|j: int| 0 <= j < s.filter(keep).len() && #[trigger] s.filter(keep)[j] == s[i],
    decreases s.len(),
{
    reveal(Seq::filter);
    let rest = s.drop_last();
    if i == s.len() - 1 {
        assert(s.filter(keep)[rest.filter(keep).len() as int] == s[i]);
    } else {
        lemma_filter_keeps(rest, keep, i);
        let j = choose|j: int|
            0 <= j < rest.filter(keep).len() && #[trigger] rest.filter(keep)[j] == rest[i];
        assert(s.filter(keep)[j] == s[i]);
    }
}

/// What a partial map maps is in the outcome.
pub proof fn lemma_filter_map_keeps<A, B>(s: Seq<A>, map: spec_fn(A) -> Option<B>, i: int)
    requires
        0 <= i < s.len(),
        map(s[i]) is Some,
    ensures
        exists|j: int|
            0 <= j < s.filter_map(map).len() && #[trigger] s.filter_map(map)[j] == map(
                s[i],
            )->Some_0,
    decreases s.len(),
{
    let rest = s.drop_last();
    if i == s.len() - 1 {
        assert(s.filter_map(map)[rest.filter_map(map).len() as int] == map(s[i])->Some_0);
    } else {
        lemma_filter_map_keeps(rest, map, i);
        let j = choose|j: int|
            0 <= j < rest.filter_map(map).len() && #[trigger] rest.filter_map(map)[j] == map(
                rest[i],
            )->Some_0;
        assert(s.filter_map(map)[j] == map(s[i])->Some_0);
    }
}

/// Where nothing maps to anything, nothing is left.
pub proof fn lemma_filter_map_none<A, B>(s: Seq<A>, map: spec_fn(A) -> Option<B>)
    requires
        forall|i: int| 0 <= i < s.len() ==> map(#[trigger] s[i]) is None,
    ensures
        s.filter_map(map).len() == 0,
    decreases s.len(),
{
    if s.len() > 0 {
        let rest = s.drop_last();
        assert forall|i: int| 0 <= i < rest.len() implies map(#[trigger] rest[i]) is None by {
            assert(rest[i] == s[i]);
        }
        lemma_filter_map_none(rest, map);
        assert(map(s[s.len() - 1]) is None);
    }
}

/// Where everything maps to itself, everything is left.
pub proof fn lemma_filter_map_same<A>(s: Seq<A>, map: spec_fn(A) -> Option<A>)
    requires
        forall|i: int| 0 <= i < s.len() ==> map(#[trigger] s[i]) == Some(s[i]),
    ensures
        s.filter_map(map) == s,
    decreases s.len(),
{
    if s.len() > 0 {
        let rest = s.drop_last();
        assert forall|i: int| 0 <= i < rest.len() implies map(#[trigger] rest[i]) == Some(
            rest[i],
        ) by {
            assert(rest[i] == s[i]);
        }
        lemma_filter_map_same(rest, map);
        assert(map(s[s.len() - 1]) == Some(s[s.len() - 1]));
        assert(s.filter_map(map) =~= s);
    }
}

} // verus!
