//! Putting zones in the order of their start times.

use vstd::prelude::*;

verus! {

/// Something that starts at a point in time.
pub trait Timed {
    /// The time at which it starts.
    spec fn spec_start(&self) -> u64;

    /// The time at which it starts.
    fn start(&self) -> (t: u64)
        ensures
            t == self.spec_start(),
    ;
}

/// No element starts before the one in front of it.
pub open spec fn sorted_by_start<T: Timed>(items: Seq<T>) -> bool {
    forall|i: int, j: int| 0 <= i < j < items.len() ==> items[i].spec_start() <= items[j].spec_start()
}

/// The test "the element starts at `t`".
pub open spec fn starts_at<T: Timed>(t: u64) -> spec_fn(T) -> bool {
    |item: T| item.spec_start() == t
}

/// `after` holds the elements of `before` in ascending order of their start
/// times: for every point in time, the elements that start there are the
/// same in both, in the same order.
pub open spec fn is_sorted_copy<T: Timed>(before: Seq<T>, after: Seq<T>) -> bool {
    &&& after.len() == before.len()
    &&& sorted_by_start(after)
    &&& forall|t: u64| #[trigger] after.filter(starts_at::<T>(t)) == before.filter(starts_at::<T>(t))
}

/// `slice::sort_by_key` of the standard library, with the start time as the
/// key: the sort is stable, so the elements come out in ascending order of
/// start time, and those that start together keep their order.
#[verifier::external_body]
pub(crate) fn sort_by_start<T: Timed>(items: &mut Vec<T>)
    ensures
        final(items)@.len() == old(items)@.len(),
        sorted_by_start(final(items)@),
        forall|t: u64| #[trigger]
            final(items)@.filter(starts_at::<T>(t)) == old(items)@.filter(starts_at::<T>(t)),
{
    items.sort_by_key(|item| item.start());
}

} // verus!
