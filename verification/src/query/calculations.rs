//! How much of a zone's time is its own.

use crate::seqs::{lemma_filter_keeps_all, lemma_filter_keeps_none};
use crate::zone_search::{
    capped, contained_ignores, contains_intersect, filter_by_name_on_idx, filter_out_contains,
    first_by_name_on_idx, first_named, in_range, indexed, inside_any, intersection_sum,
    lemma_intersection_sum_nonnegative,
    named_any, outside_all, partial_intersect, spec_intersect, sum_zone_indices, Relation,
};
use crate::zones::Zone;
use vstd::prelude::*;

verus! {

/// The zone that marks where a call enters native code.
pub const START_OF_CPP: &'static str = "V8.Builtin_HandleApiCall";

/// The zone that marks the entry where `START_OF_CPP` is not recorded.
pub const START_OF_CPP_FALLBACK: &'static str = "V8.ExternalCallback";

/// The zone in which the arguments of a native call are converted.
pub const IMPL_ARG: &'static str = "toImplArgs2";

/// `n`, or zero where `n` is negative.
pub open spec fn at_least_zero(n: int) -> int {
    if n >= 0 {
        n
    } else {
        0
    }
}

/// The zones that straddle a boundary of the zone at `idx` and carry one of
/// `partial_ignores`.
pub open spec fn ignored_partials(zones: Seq<Zone>, idx: int, partial_ignores: Seq<String>) -> Seq<
    usize,
> {
    spec_intersect(zones, idx, Relation::Partial).filter(named_any(zones, partial_ignores))
}

/// The zones inside the zone at `idx` that carry one of `ignores`.
pub open spec fn ignored_inside(zones: Seq<Zone>, idx: int, ignores: Seq<String>) -> Seq<usize> {
    spec_intersect(zones, idx, Relation::ContainedNamed(ignores))
}

/// The ignored zones inside the zone at `idx` that no ignored partial
/// overlap already covers.
pub open spec fn ignored_inside_uncovered(
    zones: Seq<Zone>,
    idx: int,
    partial_ignores: Seq<String>,
    ignores: Seq<String>,
) -> Seq<usize> {
    ignored_inside(zones, idx, ignores).filter(
        outside_all(zones, ignored_partials(zones, idx, partial_ignores)),
    )
}

/// The duration of the zone at `idx`, less the time it shares with its
/// ignored partial overlaps and with its uncovered ignored zones, and not
/// less than zero.
pub open spec fn spec_self_time(
    zones: Seq<Zone>,
    idx: int,
    partial_ignores: Seq<String>,
    ignores: Seq<String>,
) -> int {
    let zone = zones[idx];
    at_least_zero(
        zone.duration - intersection_sum(zones, zone, ignored_partials(zones, idx, partial_ignores))
            - intersection_sum(
            zones,
            zone,
            ignored_inside_uncovered(zones, idx, partial_ignores, ignores),
        ),
    )
}

/// The duration of `zone`, less the time it shares with the ignored zones
/// inside the zone at its offset, and not less than zero.
pub open spec fn spec_total_time(zone: Zone, zones: Seq<Zone>, ignores: Seq<String>) -> int {
    at_least_zero(
        zone.duration - intersection_sum(zones, zone, ignored_inside(zones, zone.idx as int, ignores)),
    )
}

/// Taking two capped sums off a duration, stopping at zero each time, gives
/// what taking the exact sums off gives.
proof fn lemma_saturating_steps(duration: u64, a: int, b: int)
    requires
        a >= 0,
        b >= 0,
    ensures
        at_least_zero(at_least_zero(duration - capped(a)) - capped(b)) == at_least_zero(
            duration - a - b,
        ),
{
}

/// The self time of the zone at `zone_idx`.
pub fn calculate_self_time(
    zone_idx: usize,
    zones: &Vec<Zone>,
    partial_ignores: &Vec<String>,
    ignores: &Vec<String>,
) -> (time: u64)
    requires
        zone_idx < zones.len(),
        indexed(zones@),
    ensures
        time == spec_self_time(zones@, zone_idx as int, partial_ignores@, ignores@),
        time <= zones[zone_idx as int].duration,
{
    let zone = &zones[zone_idx];
    let partials = filter_by_name_on_idx(
        zones,
        &partial_intersect(zones, zone.idx),
        partial_ignores,
    );
    let contains = contained_ignores(zones, zone.idx, ignores);
    let contains = filter_out_contains(zones, &partials, &contains);
    proof {
        lemma_intersection_sum_nonnegative(zones@, *zone, partials@);
        lemma_intersection_sum_nonnegative(zones@, *zone, contains@);
        lemma_saturating_steps(
            zone.duration,
            intersection_sum(zones@, *zone, partials@),
            intersection_sum(zones@, *zone, contains@),
        );
    }
    let partials = sum_zone_indices(zones, zone, &partials);
    let contains = sum_zone_indices(zones, zone, &contains);
    zone.duration.saturating_sub(partials).saturating_sub(contains)
}

/// The total time of `zone`, which stands in `zones` at its offset.
pub fn calculate_total_time(zone: &Zone, zones: &Vec<Zone>, ignores: &Vec<String>) -> (time: u64)
    requires
        zone.idx < zones.len(),
        indexed(zones@),
    ensures
        time == spec_total_time(*zone, zones@, ignores@),
        time <= zone.duration,
{
    let contains = contained_ignores(zones, zone.idx, ignores);
    proof {
        lemma_intersection_sum_nonnegative(zones@, *zone, contains@);
    }
    let contains = sum_zone_indices(zones, zone, &contains);
    zone.duration.saturating_sub(contains)
}

/// The time that the zone at `idx` shares with those ignored zones inside it
/// that an ignored partial overlap covers, and that self time therefore
/// does not take off a second time.
pub open spec fn covered_time(
    zones: Seq<Zone>,
    idx: int,
    partial_ignores: Seq<String>,
    ignores: Seq<String>,
) -> int {
    intersection_sum(zones, zones[idx], ignored_inside(zones, idx, ignores)) - intersection_sum(
        zones,
        zones[idx],
        ignored_inside_uncovered(zones, idx, partial_ignores, ignores),
    )
}

/// Self time is never more than the zone's duration, and never negative.
pub proof fn lemma_self_time_bounds(
    zones: Seq<Zone>,
    idx: int,
    partial_ignores: Seq<String>,
    ignores: Seq<String>,
)
    ensures
        0 <= spec_self_time(zones, idx, partial_ignores, ignores) <= zones[idx].duration,
{
    lemma_intersection_sum_nonnegative(
        zones,
        zones[idx],
        ignored_partials(zones, idx, partial_ignores),
    );
    lemma_intersection_sum_nonnegative(
        zones,
        zones[idx],
        ignored_inside_uncovered(zones, idx, partial_ignores, ignores),
    );
}

/// Total time is at least self time, for the same zone and the same ignored
/// names, whenever the ignored zones that self time leaves out as covered
/// weigh no more than the partial overlaps that it takes off.
pub proof fn lemma_total_time_at_least_self_time(
    zones: Seq<Zone>,
    idx: int,
    partial_ignores: Seq<String>,
    ignores: Seq<String>,
)
    requires
        0 <= idx < zones.len(),
        zones[idx].idx == idx,
        covered_time(zones, idx, partial_ignores, ignores) <= intersection_sum(
            zones,
            zones[idx],
            ignored_partials(zones, idx, partial_ignores),
        ),
    ensures
        spec_total_time(zones[idx], zones, ignores) >= spec_self_time(
            zones,
            idx,
            partial_ignores,
            ignores,
        ),
{
}

/// Where no ignored partial overlap covers an ignored zone inside the pivot,
/// nothing is left out as covered, and total time is at least self time.
pub proof fn lemma_total_time_at_least_self_time_uncovered(
    zones: Seq<Zone>,
    idx: int,
    partial_ignores: Seq<String>,
    ignores: Seq<String>,
)
    requires
        0 <= idx < zones.len(),
        zones[idx].idx == idx,
        forall|k: int|
            0 <= k < ignored_inside(zones, idx, ignores).len() ==> !inside_any(
                zones,
                ignored_partials(zones, idx, partial_ignores),
                #[trigger] ignored_inside(zones, idx, ignores)[k],
            ),
    ensures
        covered_time(zones, idx, partial_ignores, ignores) == 0,
        spec_total_time(zones[idx], zones, ignores) >= spec_self_time(
            zones,
            idx,
            partial_ignores,
            ignores,
        ),
{
    lemma_filter_keeps_all(
        ignored_inside(zones, idx, ignores),
        outside_all(zones, ignored_partials(zones, idx, partial_ignores)),
    );
    lemma_intersection_sum_nonnegative(
        zones,
        zones[idx],
        ignored_partials(zones, idx, partial_ignores),
    );
}

/// With no name to ignore among the partial overlaps, self time is total
/// time.
pub proof fn lemma_self_time_without_partials(zones: Seq<Zone>, idx: int, ignores: Seq<String>)
    requires
        0 <= idx < zones.len(),
        zones[idx].idx == idx,
    ensures
        spec_self_time(zones, idx, Seq::empty(), ignores) == spec_total_time(
            zones[idx],
            zones,
            ignores,
        ),
{
    let none = Seq::<String>::empty();
    lemma_filter_keeps_none(spec_intersect(zones, idx, Relation::Partial), named_any(zones, none));
    assert(ignored_partials(zones, idx, none) == Seq::<usize>::empty());
    lemma_filter_keeps_all(
        ignored_inside(zones, idx, ignores),
        outside_all(zones, Seq::<usize>::empty()),
    );
}

/// The zones that straddle a boundary of the zone at `idx`: all of them, or
/// of those that carry one of the names only.
pub open spec fn partials_named(zones: Seq<Zone>, idx: int, ignores: Option<Vec<String>>) -> Seq<
    usize,
> {
    match ignores {
        Some(names) => ignored_partials(zones, idx, names@),
        None => spec_intersect(zones, idx, Relation::Partial),
    }
}

/// The time that `zone` shares with the zones that straddle a boundary of
/// the zone at its offset: with all of them, or with those that carry one of
/// `ignores` only.  The sum stops at the largest timestamp.
pub fn sum_partial_intersection(zones: &Vec<Zone>, zone: &Zone, ignores: &Option<Vec<String>>) -> (sum:
    u64)
    requires
        zone.idx < zones.len(),
        indexed(zones@),
    ensures
        sum == capped(
            intersection_sum(zones@, *zone, partials_named(zones@, zone.idx as int, *ignores)),
        ),
{
    let partials = partial_intersect(zones, zone.idx);
    match ignores {
        Some(names) => {
            let partials = filter_by_name_on_idx(zones, &partials, names);
            sum_zone_indices(zones, zone, &partials)
        },
        None => sum_zone_indices(zones, zone, &partials),
    }
}

/// The entry into native code among `parents`: the first zone called
/// `START_OF_CPP`, or without one the first called `START_OF_CPP_FALLBACK`.
pub open spec fn spec_start_of_cpp(zones: Seq<Zone>, parents: Seq<usize>) -> Option<usize> {
    match first_named(zones, parents, START_OF_CPP@) {
        Some(i) => Some(i),
        None => first_named(zones, parents, START_OF_CPP_FALLBACK@),
    }
}

/// Picks the entry into native code among the zones at `parents`.
pub fn get_start_of_cpp(zones: &Vec<Zone>, parents: &Vec<usize>) -> (start: Option<usize>)
    requires
        indexed(zones@),
        in_range(parents@, zones@.len()),
    ensures
        start == spec_start_of_cpp(zones@, parents@),
        start matches Some(i) ==> i < zones@.len(),
{
    match first_by_name_on_idx(zones, parents, START_OF_CPP) {
        Some(i) => Some(i),
        None => first_by_name_on_idx(zones, parents, START_OF_CPP_FALLBACK),
    }
}

/// The first zone called `IMPL_ARG` among those that follow inside the zone
/// at `parent`.
pub open spec fn spec_impl_arg(zones: Seq<Zone>, parent: int) -> Option<usize> {
    first_named(zones, spec_intersect(zones, parent, Relation::Contained), IMPL_ARG@)
}

/// Finds the zone in which the arguments were converted for the call that
/// enters native code at `parent`.
pub fn get_impl_arg(zones: &Vec<Zone>, parent: usize) -> (arg: Option<usize>)
    requires
        parent < zones.len(),
        indexed(zones@),
    ensures
        arg == spec_impl_arg(zones@, parent as int),
        arg matches Some(i) ==> i < zones@.len(),
{
    let contains = contains_intersect(zones, parent);
    first_by_name_on_idx(zones, &contains, IMPL_ARG)
}

} // verus!
