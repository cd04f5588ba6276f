//! Facts about sequences that the searches and their proofs share.

use vstd::prelude::*;

verus! {

/// Filtering one element more either appends that element or changes nothing.
pub proof fn lemma_filter_take_step<A>(s: Seq<A>, pred: spec_fn(A) -> bool, i: int)
    requires
        0 <= i < s.len(),
    ensures
        s.take(i + 1).filter(pred) == if pred(s[i]) {
            s.take(i).filter(pred).push(s[i])
        } else {
            s.take(i).filter(pred)
        },
{
    assert(s.take(i + 1) =~= s.take(i).push(s[i]));
    s.take(i).lemma_filter_push(s[i], pred);
}

/// What a filter keeps of the first `i` elements is where what it keeps of
/// the whole sequence begins.
pub proof fn lemma_filter_prefix<A>(s: Seq<A>, pred: spec_fn(A) -> bool, i: int)
    requires
        0 <= i <= s.len(),
    ensures
        s.take(i).filter(pred).is_prefix_of(s.filter(pred)),
    decreases s.len() - i,
{
    if i == s.len() {
        assert(s.take(i) =~= s);
    } else {
        lemma_filter_take_step(s, pred, i);
        lemma_filter_prefix(s, pred, i + 1);
    }
}

/// A filter that every element passes keeps the whole sequence.
pub proof fn lemma_filter_keeps_all<A>(s: Seq<A>, pred: spec_fn(A) -> bool)
    requires
        forall|k: int| 0 <= k < s.len() ==> pred(#[trigger] s[k]),
    ensures
        s.filter(pred) == s,
    decreases s.len(),
{
    reveal(Seq::filter);
    if s.len() > 0 {
        lemma_filter_keeps_all(s.drop_last(), pred);
        assert(s.drop_last().push(s.last()) =~= s);
    }
}

/// A filter that no element passes keeps nothing.
pub proof fn lemma_filter_keeps_none<A>(s: Seq<A>, pred: spec_fn(A) -> bool)
    requires
        forall|k: int| 0 <= k < s.len() ==> !pred(#[trigger] s[k]),
    ensures
        s.filter(pred) == Seq::<A>::empty(),
    decreases s.len(),
{
    reveal(Seq::filter);
    if s.len() > 0 {
        lemma_filter_keeps_none(s.drop_last(), pred);
    } else {
        assert(s =~= Seq::<A>::empty());
    }
}

/// What a filter keeps from one element earlier on: that element first, if
/// it passes, and then what it kept before.
pub proof fn lemma_filter_skip_step<A>(s: Seq<A>, pred: spec_fn(A) -> bool, m: int)
    requires
        0 < m <= s.len(),
    ensures
        s.skip(m - 1).filter(pred) == if pred(s[m - 1]) {
            seq![s[m - 1]] + s.skip(m).filter(pred)
        } else {
            s.skip(m).filter(pred)
        },
{
    let z = s[m - 1];
    assert(s.skip(m - 1) =~= seq![z] + s.skip(m));
    Seq::filter_distributes_over_add(seq![z], s.skip(m), pred);
    lemma_filter_one(seq![z], pred);
    assert(Seq::<A>::empty() + s.skip(m).filter(pred) =~= s.skip(m).filter(pred));
}

/// What a filter keeps of at most one element.
pub proof fn lemma_filter_one<A>(s: Seq<A>, pred: spec_fn(A) -> bool)
    requires
        s.len() <= 1,
    ensures
        s.filter(pred) == if s.len() == 1 && pred(s[0]) {
            s
        } else {
            Seq::<A>::empty()
        },
{
    reveal_with_fuel(Seq::filter, 2);
    if s.len() == 1 {
        assert(s.drop_last() =~= Seq::<A>::empty());
        assert(Seq::<A>::empty().push(s[0]) =~= s);
    } else {
        assert(s =~= Seq::<A>::empty());
    }
}

/// Mapping one element more appends its image.
pub proof fn lemma_map_take_step<A, B>(s: Seq<A>, f: spec_fn(A) -> B, i: int)
    requires
        0 <= i < s.len(),
    ensures
        s.take(i + 1).map_values(f) == s.take(i).map_values(f).push(f(s[i])),
{
    assert(s.take(i + 1).map_values(f) =~= s.take(i).map_values(f).push(f(s[i])));
}

/// `i` is the first offset in `s` whose element passes `pred`.
pub open spec fn is_first<A>(s: Seq<A>, pred: spec_fn(A) -> bool, i: int) -> bool {
    &&& 0 <= i < s.len()
    &&& pred(s[i])
    &&& forall|j: int| 0 <= j < i ==> !pred(#[trigger] s[j])
}

/// The first offset in `s` whose element passes `pred`, if there is one.
pub open spec fn first<A>(s: Seq<A>, pred: spec_fn(A) -> bool) -> Option<int> {
    if exists|i: int| is_first(s, pred, i) {
        Some(choose|i: int| is_first(s, pred, i))
    } else {
        None
    }
}

/// There is only one first offset.
pub proof fn lemma_first_is<A>(s: Seq<A>, pred: spec_fn(A) -> bool, i: int)
    requires
        is_first(s, pred, i),
    ensures
        first(s, pred) == Some(i),
{
    let c = choose|c: int| is_first(s, pred, c);
    if c < i {
        assert(!pred(s[c]));
    } else if i < c {
        assert(!pred(s[i]));
    }
}

/// Without an element that passes, there is no first offset; with a first
/// offset, it points at an element that passes.
pub proof fn lemma_first_none<A>(s: Seq<A>, pred: spec_fn(A) -> bool)
    ensures
        first(s, pred) is None <==> forall|j: int| 0 <= j < s.len() ==> !pred(#[trigger] s[j]),
        first(s, pred) matches Some(i) ==> is_first(s, pred, i),
    decreases s.len(),
{
    if exists|j: int| 0 <= j < s.len() && pred(s[j]) {
        let j = choose|j: int| 0 <= j < s.len() && pred(s[j]);
        lemma_first_exists(s, pred, j);
    }
}

/// Below any element that passes there is a first one.
pub proof fn lemma_first_exists<A>(s: Seq<A>, pred: spec_fn(A) -> bool, j: int)
    requires
        0 <= j < s.len(),
        pred(s[j]),
    ensures
        exists|i: int| is_first(s, pred, i),
    decreases j,
{
    if exists|k: int| 0 <= k < j && pred(s[k]) {
        let k = choose|k: int| 0 <= k < j && pred(s[k]);
        lemma_first_exists(s, pred, k);
    } else {
        assert(is_first(s, pred, j));
    }
}

} // verus!
