//! Searching a list of zones by name and by position in time.
//!
//! The list is expected to be sorted by start time and indexed, so that a
//! zone's `idx` is its offset in the list.  Searches return offsets.

use crate::seqs::{lemma_filter_prefix, lemma_filter_take_step};
use crate::sorting::{sort_by_start, sorted_by_start, starts_at, Timed};
use crate::zones::Zone;
use vstd::prelude::*;

verus! {

/// An offset into a list of zones.
pub struct ZoneIdx(pub usize);

impl From<usize> for ZoneIdx {
    fn from(idx: usize) -> (z: ZoneIdx) {
        ZoneIdx(idx)
    }
}

impl vstd::std_specs::convert::FromSpecImpl<usize> for ZoneIdx {
    open spec fn obeys_from_spec() -> bool {
        true
    }

    open spec fn from_spec(idx: usize) -> ZoneIdx {
        ZoneIdx(idx)
    }
}

/// Every zone's `idx` is its offset in the list.
pub open spec fn indexed(zones: Seq<Zone>) -> bool {
    forall|i: int| 0 <= i < zones.len() ==> (#[trigger] zones[i]).idx == i
}

/// Every offset in `idxs` points into a list of `len` zones.
pub open spec fn in_range(idxs: Seq<usize>, len: nat) -> bool {
    forall|k: int| 0 <= k < idxs.len() ==> (#[trigger] idxs[k]) < len
}

/// The offsets `0, 1, .., n - 1`.
pub open spec fn offsets(n: nat) -> Seq<usize> {
    Seq::new(n, |i: int| i as usize)
}

/// One of `names` is `name`.
pub open spec fn has_name(names: Seq<String>, name: Seq<char>) -> bool {
    exists|k: int| 0 <= k < names.len() && (#[trigger] names[k])@ == name
}

/// The test "the zone at this offset is called `name`".
pub open spec fn named(zones: Seq<Zone>, name: Seq<char>) -> spec_fn(usize) -> bool {
    |i: usize| zones[i as int].name@ == name
}

/// The test "the zone at this offset carries one of `names`".
pub open spec fn named_any(zones: Seq<Zone>, names: Seq<String>) -> spec_fn(usize) -> bool {
    |i: usize| has_name(names, zones[i as int].name@)
}

/// Writes each zone's offset into its `idx`.
pub fn set_zone_idx(vec: &mut Vec<Zone>)
    ensures
        final(vec).len() == old(vec).len(),
        indexed(final(vec)@),
        forall|i: int|
            0 <= i < old(vec).len() ==> #[trigger] final(vec)[i] == (Zone {
                idx: i as usize,
                ..old(vec)[i]
            }),
{
    let n: usize = vec.len();
    let mut i: usize = 0;
    while i < n
        invariant
            i <= n,
            vec.len() == n,
            n == old(vec).len(),
            forall|k: int| 0 <= k < i ==> #[trigger] vec[k] == (Zone { idx: k as usize, ..old(vec)[k] }),
            forall|k: int| i <= k < n ==> #[trigger] vec[k] == old(vec)[k],
        decreases n - i,
    {
        vec[i].idx = i;
        i += 1;
    }
}

/// The two zones differ in nothing but their offset.
pub open spec fn same_but_idx(a: Zone, b: Zone) -> bool {
    a == (Zone { idx: a.idx, ..b })
}

/// The two lists hold the same zones, offsets apart.
pub open spec fn all_same_but_idx(a: Seq<Zone>, b: Seq<Zone>) -> bool {
    a.len() == b.len() && forall|i: int| 0 <= i < a.len() ==> same_but_idx(#[trigger] a[i], b[i])
}

/// Of two lists with the same zones, offsets apart, the zones that start at
/// `t` are the same too, offsets apart.
pub proof fn lemma_filter_same_but_idx(a: Seq<Zone>, b: Seq<Zone>, t: u64)
    requires
        all_same_but_idx(a, b),
    ensures
        all_same_but_idx(a.filter(starts_at::<Zone>(t)), b.filter(starts_at::<Zone>(t))),
    decreases a.len(),
{
    reveal(Seq::filter);
    if a.len() > 0 {
        assert(same_but_idx(a.last(), b.last()));
        assert forall|i: int| 0 <= i < a.drop_last().len() implies same_but_idx(
            #[trigger] a.drop_last()[i],
            b.drop_last()[i],
        ) by {
            assert(same_but_idx(a[i], b[i]));
        }
        lemma_filter_same_but_idx(a.drop_last(), b.drop_last(), t);
    }
}

/// Puts the zones in ascending order of start time and writes each zone's
/// offset into its `idx`.  Zones that start together keep their order.
pub fn sort_and_index(zones: &mut Vec<Zone>)
    ensures
        final(zones).len() == old(zones).len(),
        sorted_by_start(final(zones)@),
        indexed(final(zones)@),
        forall|t: u64|
            all_same_but_idx(
                #[trigger] final(zones)@.filter(starts_at::<Zone>(t)),
                old(zones)@.filter(starts_at::<Zone>(t)),
            ),
{
    sort_by_start(zones);
    let ghost sorted = zones@;
    set_zone_idx(zones);
    proof {
        assert(all_same_but_idx(zones@, sorted));
        assert forall|i: int, j: int| 0 <= i < j < zones@.len() implies zones@[i].spec_start()
            <= zones@[j].spec_start() by {
            assert(same_but_idx(zones@[i], sorted[i]));
            assert(same_but_idx(zones@[j], sorted[j]));
        }
        assert forall|t: u64|
            all_same_but_idx(
                #[trigger] zones@.filter(starts_at::<Zone>(t)),
                old(zones)@.filter(starts_at::<Zone>(t)),
            ) by {
            lemma_filter_same_but_idx(zones@, sorted, t);
            assert(sorted.filter(starts_at::<Zone>(t)) == old(zones)@.filter(starts_at::<Zone>(t)));
        }
    }
}

/// Whether `names` holds `name`.
pub fn contains_name(names: &Vec<String>, name: &String) -> (found: bool)
    ensures
        found == has_name(names@, name@),
{
    let mut k: usize = 0;
    while k < names.len()
        invariant
            k <= names.len(),
            forall|j: int| 0 <= j < k ==> (#[trigger] names[j])@ != name@,
        decreases names.len() - k,
    {
        if names[k] == *name {
            return true;
        }
        k += 1;
    }
    false
}

/// The offsets of the zones called `name`, in ascending order.
pub fn get_by_name(vec: &Vec<Zone>, name: &str) -> (out: Vec<usize>)
    requires
        indexed(vec@),
    ensures
        out@ == offsets(vec@.len()).filter(named(vec@, name@)),
        in_range(out@, vec@.len()),
{
    let wanted: String = name.to_owned();
    let mut out: Vec<usize> = Vec::new();
    let ghost all = offsets(vec@.len());
    let ghost pred = named(vec@, name@);
    let mut i: usize = 0;
    while i < vec.len()
        invariant
            i <= vec.len(),
            indexed(vec@),
            wanted@ == name@,
            all == offsets(vec@.len()),
            pred == named(vec@, name@),
            out@ == all.take(i as int).filter(pred),
            in_range(out@, vec@.len()),
        decreases vec.len() - i,
    {
        proof {
            lemma_filter_take_step(all, pred, i as int);
        }
        let zone = &vec[i];
        if zone.name == wanted {
            out.push(zone.idx);
        }
        i += 1;
    }
    assert(all.take(i as int) =~= all);
    out
}

/// The offsets of the zones that carry one of `names`, in ascending order.
pub fn filter_by_name(zones: &Vec<Zone>, names: &Vec<String>) -> (out: Vec<usize>)
    requires
        indexed(zones@),
    ensures
        out@ == offsets(zones@.len()).filter(named_any(zones@, names@)),
        in_range(out@, zones@.len()),
{
    let mut out: Vec<usize> = Vec::new();
    let ghost all = offsets(zones@.len());
    let ghost pred = named_any(zones@, names@);
    let mut i: usize = 0;
    while i < zones.len()
        invariant
            i <= zones.len(),
            indexed(zones@),
            all == offsets(zones@.len()),
            pred == named_any(zones@, names@),
            out@ == all.take(i as int).filter(pred),
            in_range(out@, zones@.len()),
        decreases zones.len() - i,
    {
        proof {
            lemma_filter_take_step(all, pred, i as int);
        }
        let zone = &zones[i];
        if contains_name(names, &zone.name) {
            out.push(zone.idx);
        }
        i += 1;
    }
    assert(all.take(i as int) =~= all);
    out
}

/// Those of the offsets `filter_zones` whose zone carries one of `names`,
/// in the order given.
pub fn filter_by_name_on_idx(
    zones: &Vec<Zone>,
    filter_zones: &Vec<usize>,
    names: &Vec<String>,
) -> (out: Vec<usize>)
    requires
        indexed(zones@),
        in_range(filter_zones@, zones@.len()),
    ensures
        out@ == filter_zones@.filter(named_any(zones@, names@)),
        in_range(out@, zones@.len()),
{
    let mut out: Vec<usize> = Vec::new();
    let ghost pred = named_any(zones@, names@);
    let mut i: usize = 0;
    while i < filter_zones.len()
        invariant
            i <= filter_zones.len(),
            indexed(zones@),
            in_range(filter_zones@, zones@.len()),
            pred == named_any(zones@, names@),
            out@ == filter_zones@.take(i as int).filter(pred),
            in_range(out@, zones@.len()),
        decreases filter_zones.len() - i,
    {
        proof {
            lemma_filter_take_step(filter_zones@, pred, i as int);
        }
        let zone = &zones[filter_zones[i]];
        if contains_name(names, &zone.name) {
            out.push(zone.idx);
        }
        i += 1;
    }
    assert(filter_zones@.take(i as int) =~= filter_zones@);
    out
}

/// What a scan does with one candidate.
pub enum FilterResult {
    /// Pass over the candidate and go on.
    Continue,
    /// Take the candidate and go on.
    Add,
    /// Stop scanning in this direction.
    Break,
}

/// What a scan is looking for around its pivot.
#[derive(Clone, Copy)]
pub enum ZoneFilter<'a> {
    /// Zones that straddle a boundary of the pivot.
    Partial,
    /// Zones inside the pivot, as long as one follows the other.
    Contained,
    /// Zones inside the pivot that carry one of the names.
    ContainedNamed(&'a Vec<String>),
    /// Zones that the pivot lies inside.
    Parents,
}

/// Takes what the pivot straddles, passes over what is nested either way,
/// and stops at the first zone that is neither.
pub open spec fn spec_partial_intersect_filter(zone: &Zone, z: &Zone) -> FilterResult {
    if zone.spec_partial_contains(z) {
        FilterResult::Add
    } else if zone.spec_contains(z) || z.spec_contains(zone) {
        FilterResult::Continue
    } else {
        FilterResult::Break
    }
}

/// Takes what lies inside the pivot and stops at the first zone that does not.
pub open spec fn spec_contain_intersect_filter(zone: &Zone, z: &Zone) -> FilterResult {
    if zone.spec_contains(z) {
        FilterResult::Add
    } else {
        FilterResult::Break
    }
}

/// Stops where pivot and candidate are disjoint, takes what lies inside the
/// pivot under one of the names, and passes over the rest.
pub open spec fn spec_contained_ignores_filter(
    zone: &Zone,
    z: &Zone,
    names: Seq<String>,
) -> FilterResult {
    if zone.spec_completes_before(z) || z.spec_completes_before(zone) {
        FilterResult::Break
    } else if zone.spec_contains(z) && has_name(names, z.name@) {
        FilterResult::Add
    } else {
        FilterResult::Continue
    }
}

/// Takes every zone that the pivot lies inside and never stops early.
pub open spec fn spec_parents_filter(zone: &Zone, z: &Zone) -> FilterResult {
    if z.spec_contains(zone) {
        FilterResult::Add
    } else {
        FilterResult::Continue
    }
}

/// The decision of a search for partial overlaps.
pub fn partial_intersect_filter(zone: &Zone, z: &Zone) -> (r: FilterResult)
    ensures
        r == spec_partial_intersect_filter(zone, z),
{
    if zone.partial_contains(z) {
        return FilterResult::Add;
    } else if zone.contains(z) || z.contains(zone) {
        return FilterResult::Continue;
    }
    FilterResult::Break
}

/// The decision of a search for the zones that follow inside the pivot.
pub fn contain_intersect_filter(zone: &Zone, z: &Zone) -> (r: FilterResult)
    ensures
        r == spec_contain_intersect_filter(zone, z),
{
    if zone.contains(z) {
        return FilterResult::Add;
    }
    FilterResult::Break
}

/// The decision of a search for named zones inside the pivot.
pub fn contained_ignores_filter(zone: &Zone, z: &Zone, names: &Vec<String>) -> (r: FilterResult)
    ensures
        r == spec_contained_ignores_filter(zone, z, names@),
{
    if zone.completes_before(z) || z.completes_before(zone) {
        return FilterResult::Break;
    }
    if zone.contains(z) && contains_name(names, &z.name) {
        return FilterResult::Add;
    }
    FilterResult::Continue
}

/// The decision of a search for the zones around the pivot.
pub fn parents_filter(zone: &Zone, z: &Zone) -> (r: FilterResult)
    ensures
        r == spec_parents_filter(zone, z),
{
    if z.contains(zone) {
        return FilterResult::Add;
    }
    FilterResult::Continue
}

/// What a scan is looking for, with the names as plain text.
pub enum Relation {
    Partial,
    Contained,
    ContainedNamed(Seq<String>),
    Parents,
}

impl Relation {
    /// The decision on candidate `z` for pivot `zone`.
    pub open spec fn spec_decide(&self, zone: &Zone, z: &Zone) -> FilterResult {
        match self {
            Relation::Partial => spec_partial_intersect_filter(zone, z),
            Relation::Contained => spec_contain_intersect_filter(zone, z),
            Relation::ContainedNamed(names) => spec_contained_ignores_filter(zone, z, *names),
            Relation::Parents => spec_parents_filter(zone, z),
        }
    }
}

impl<'a> View for ZoneFilter<'a> {
    type V = Relation;

    open spec fn view(&self) -> Relation {
        match self {
            ZoneFilter::Partial => Relation::Partial,
            ZoneFilter::Contained => Relation::Contained,
            ZoneFilter::ContainedNamed(names) => Relation::ContainedNamed(names@),
            ZoneFilter::Parents => Relation::Parents,
        }
    }
}

impl<'a> ZoneFilter<'a> {
    /// The decision on candidate `z` for pivot `zone`.
    pub fn decide(&self, zone: &Zone, z: &Zone) -> (r: FilterResult)
        ensures
            r == self@.spec_decide(zone, z),
    {
        match self {
            ZoneFilter::Partial => partial_intersect_filter(zone, z),
            ZoneFilter::Contained => contain_intersect_filter(zone, z),
            ZoneFilter::ContainedNamed(names) => contained_ignores_filter(zone, z, names),
            ZoneFilter::Parents => parents_filter(zone, z),
        }
    }
}

/// The pass to the left: the candidates at `from`, `from - 1`, .., `0`, in
/// that order, up to the first on which the filter stops.
pub open spec fn scan_left(zones: Seq<Zone>, filter: Relation, pivot: Zone, from: int) -> Seq<
    usize,
>
    decreases from + 1,
{
    if from < 0 || from >= zones.len() {
        Seq::empty()
    } else {
        match filter.spec_decide(&pivot, &zones[from]) {
            FilterResult::Add => seq![from as usize] + scan_left(zones, filter, pivot, from - 1),
            FilterResult::Continue => scan_left(zones, filter, pivot, from - 1),
            FilterResult::Break => Seq::empty(),
        }
    }
}

/// The pass to the right: the candidates at `from`, `from + 1`, .., in that
/// order, up to the first on which the filter stops.
pub open spec fn scan_right(zones: Seq<Zone>, filter: Relation, pivot: Zone, from: int) -> Seq<
    usize,
>
    decreases zones.len() - from,
{
    if from < 0 || from >= zones.len() {
        Seq::empty()
    } else {
        match filter.spec_decide(&pivot, &zones[from]) {
            FilterResult::Add => seq![from as usize] + scan_right(zones, filter, pivot, from + 1),
            FilterResult::Continue => scan_right(zones, filter, pivot, from + 1),
            FilterResult::Break => Seq::empty(),
        }
    }
}

/// What a scan around the zone at `idx` finds: the pass to the left, then
/// the pass to the right.  Neither pass is cut short by the other.
pub open spec fn spec_intersect(zones: Seq<Zone>, idx: int, filter: Relation) -> Seq<usize> {
    scan_left(zones, filter, zones[idx], idx - 1) + scan_right(zones, filter, zones[idx], idx + 1)
}

/// The offsets that the pass to the left finds lie in `0 ..= from`.
pub proof fn lemma_scan_left_in_range(zones: Seq<Zone>, filter: Relation, pivot: Zone, from: int)
    requires
        from < zones.len(),
    ensures
        forall|k: int|
            0 <= k < scan_left(zones, filter, pivot, from).len() ==> 0 <= (#[trigger] scan_left(
                zones,
                filter,
                pivot,
                from,
            )[k]) <= from,
    decreases from + 1,
{
    if from >= 0 {
        lemma_scan_left_in_range(zones, filter, pivot, from - 1);
        let all = scan_left(zones, filter, pivot, from);
        let rest = scan_left(zones, filter, pivot, from - 1);
        assert forall|k: int| 0 <= k < all.len() implies 0 <= #[trigger] all[k] <= from by {
            match filter.spec_decide(&pivot, &zones[from]) {
                FilterResult::Add => {
                    if k > 0 {
                        assert(all[k] == rest[k - 1]);
                    }
                },
                FilterResult::Continue => {
                    assert(all[k] == rest[k]);
                },
                FilterResult::Break => {},
            }
        }
    }
}

/// The offsets that the pass to the right finds lie in `from .. zones.len()`.
pub proof fn lemma_scan_right_in_range(
    zones: Seq<Zone>,
    filter: Relation,
    pivot: Zone,
    from: int,
)
    requires
        0 <= from,
        zones.len() <= usize::MAX,
    ensures
        forall|k: int|
            0 <= k < scan_right(zones, filter, pivot, from).len() ==> from <= (
            #[trigger] scan_right(zones, filter, pivot, from)[k]) < zones.len(),
    decreases zones.len() - from,
{
    if from < zones.len() {
        lemma_scan_right_in_range(zones, filter, pivot, from + 1);
        let all = scan_right(zones, filter, pivot, from);
        let rest = scan_right(zones, filter, pivot, from + 1);
        assert forall|k: int| 0 <= k < all.len() implies from <= #[trigger] all[k]
            < zones.len() by {
            match filter.spec_decide(&pivot, &zones[from]) {
                FilterResult::Add => {
                    if k > 0 {
                        assert(all[k] == rest[k - 1]);
                    }
                },
                FilterResult::Continue => {
                    assert(all[k] == rest[k]);
                },
                FilterResult::Break => {},
            }
        }
    }
}

/// The pass to the left finds the zone at `j` exactly when the filter takes
/// it and stops on no zone between it and the start of the pass.
pub proof fn lemma_scan_left_members(
    zones: Seq<Zone>,
    filter: Relation,
    pivot: Zone,
    from: int,
    j: int,
)
    requires
        0 <= j <= from < zones.len(),
        zones.len() <= usize::MAX,
    ensures
        scan_left(zones, filter, pivot, from).contains(j as usize) <==> (filter.spec_decide(
            &pivot,
            &zones[j],
        ) == FilterResult::Add && forall|m: int|
            j < m <= from ==> filter.spec_decide(&pivot, #[trigger] &zones[m])
                != FilterResult::Break),
    decreases from + 1,
{
    let all = scan_left(zones, filter, pivot, from);
    let rest = scan_left(zones, filter, pivot, from - 1);
    lemma_scan_left_in_range(zones, filter, pivot, from - 1);
    if j < from {
        lemma_scan_left_members(zones, filter, pivot, from - 1, j);
    }
    match filter.spec_decide(&pivot, &zones[from]) {
        FilterResult::Add => {
            if j == from {
                assert(all[0] == j as usize);
            } else {
                if rest.contains(j as usize) {
                    let k = choose|k: int| 0 <= k < rest.len() && rest[k] == j as usize;
                    assert(all[k + 1] == j as usize);
                }
                if all.contains(j as usize) {
                    let k = choose|k: int| 0 <= k < all.len() && all[k] == j as usize;
                    assert(k > 0);
                    assert(rest[k - 1] == j as usize);
                }
            }
        },
        FilterResult::Continue => {
            if all.contains(j as usize) {
                let k = choose|k: int| 0 <= k < all.len() && all[k] == j as usize;
                assert(rest[k] <= from - 1);
            }
        },
        FilterResult::Break => {},
    }
}

/// The pass to the right finds the zone at `j` exactly when the filter takes
/// it and stops on no zone between the start of the pass and it.
pub proof fn lemma_scan_right_members(
    zones: Seq<Zone>,
    filter: Relation,
    pivot: Zone,
    from: int,
    j: int,
)
    requires
        0 <= from <= j < zones.len(),
        zones.len() <= usize::MAX,
    ensures
        scan_right(zones, filter, pivot, from).contains(j as usize) <==> (filter.spec_decide(
            &pivot,
            &zones[j],
        ) == FilterResult::Add && forall|m: int|
            from <= m < j ==> filter.spec_decide(&pivot, #[trigger] &zones[m])
                != FilterResult::Break),
    decreases zones.len() - from,
{
    let all = scan_right(zones, filter, pivot, from);
    let rest = scan_right(zones, filter, pivot, from + 1);
    lemma_scan_right_in_range(zones, filter, pivot, from + 1);
    if from < j {
        lemma_scan_right_members(zones, filter, pivot, from + 1, j);
    }
    match filter.spec_decide(&pivot, &zones[from]) {
        FilterResult::Add => {
            if j == from {
                assert(all[0] == j as usize);
            } else {
                if rest.contains(j as usize) {
                    let k = choose|k: int| 0 <= k < rest.len() && rest[k] == j as usize;
                    assert(all[k + 1] == j as usize);
                }
                if all.contains(j as usize) {
                    let k = choose|k: int| 0 <= k < all.len() && all[k] == j as usize;
                    assert(k > 0);
                    assert(rest[k - 1] == j as usize);
                }
            }
        },
        FilterResult::Continue => {
            if all.contains(j as usize) {
                let k = choose|k: int| 0 <= k < all.len() && all[k] == j as usize;
                assert(rest[k] >= from + 1);
            }
        },
        FilterResult::Break => {},
    }
}

/// A scan around the zone at `idx` finds the zone at `j` exactly when `j` is
/// another offset, the filter takes the zone, and the filter stops on no
/// zone between the two.  A stop on one side cuts nothing off the other.
pub proof fn lemma_intersect_members(zones: Seq<Zone>, idx: int, filter: Relation, j: int)
    requires
        0 <= idx < zones.len(),
        0 <= j < zones.len(),
        zones.len() <= usize::MAX,
    ensures
        spec_intersect(zones, idx, filter).contains(j as usize) <==> (j != idx
            && filter.spec_decide(&zones[idx], &zones[j]) == FilterResult::Add && forall|m: int|
            (j < m < idx || idx < m < j) ==> filter.spec_decide(&zones[idx], #[trigger] &zones[m])
                != FilterResult::Break),
{
    let pivot = zones[idx];
    let left = scan_left(zones, filter, pivot, idx - 1);
    let right = scan_right(zones, filter, pivot, idx + 1);
    let all = spec_intersect(zones, idx, filter);
    lemma_scan_left_in_range(zones, filter, pivot, idx - 1);
    lemma_scan_right_in_range(zones, filter, pivot, idx + 1);
    if j < idx {
        lemma_scan_left_members(zones, filter, pivot, idx - 1, j);
        if left.contains(j as usize) {
            let k = choose|k: int| 0 <= k < left.len() && left[k] == j as usize;
            assert(all[k] == j as usize);
        }
    } else if j > idx {
        lemma_scan_right_members(zones, filter, pivot, idx + 1, j);
        if right.contains(j as usize) {
            let k = choose|k: int| 0 <= k < right.len() && right[k] == j as usize;
            assert(all[left.len() + k] == j as usize);
        }
    }
    if all.contains(j as usize) {
        let k = choose|k: int| 0 <= k < all.len() && all[k] == j as usize;
        if k < left.len() {
            assert(left[k] == j as usize);
        } else {
            assert(right[k - left.len()] == j as usize);
        }
    }
}

/// The search for parents finds exactly the other zones that the pivot lies
/// inside, wherever in the list they stand.
pub proof fn lemma_parents_complete(zones: Seq<Zone>, idx: int, j: int)
    requires
        0 <= idx < zones.len(),
        0 <= j < zones.len(),
        zones.len() <= usize::MAX,
    ensures
        spec_intersect(zones, idx, Relation::Parents).contains(j as usize) <==> (j != idx
            && zones[j].spec_contains(&zones[idx])),
{
    lemma_intersect_members(zones, idx, Relation::Parents, j);
}

/// Every zone ends no earlier than it starts.
pub open spec fn all_ordered(zones: Seq<Zone>) -> bool {
    forall|i: int| 0 <= i < zones.len() ==> (#[trigger] zones[i]).start_time <= zones[i].end_time
}

/// In a list sorted by start time, of zones that end no earlier than they
/// start, the early stop costs the search for named zones inside the pivot
/// nothing: it finds every other zone that the pivot contains and that
/// carries one of the names, and no other.
pub proof fn lemma_contained_ignores_complete(
    zones: Seq<Zone>,
    idx: int,
    names: Seq<String>,
    j: int,
)
    requires
        sorted_by_start(zones),
        all_ordered(zones),
        0 <= idx < zones.len(),
        0 <= j < zones.len(),
        zones.len() <= usize::MAX,
    ensures
        spec_intersect(zones, idx, Relation::ContainedNamed(names)).contains(j as usize) <==> (j
            != idx && zones[idx].spec_contains(&zones[j]) && has_name(names, zones[j].name@)),
{
    let filter = Relation::ContainedNamed(names);
    lemma_intersect_members(zones, idx, filter, j);
    if j != idx && zones[idx].spec_contains(&zones[j]) && has_name(names, zones[j].name@) {
        assert(zones[j].start_time <= zones[j].end_time);
        assert(zones[idx].start_time <= zones[idx].end_time);
        assert(filter.spec_decide(&zones[idx], &zones[j]) == FilterResult::Add);
        assert forall|m: int| (j < m < idx || idx < m < j) implies filter.spec_decide(
            &zones[idx],
            #[trigger] &zones[m],
        ) != FilterResult::Break by {
            assert(zones[m].start_time <= zones[m].end_time);
            if j < m < idx {
                assert(zones[j].spec_start() <= zones[m].spec_start());
                assert(zones[m].spec_start() <= zones[idx].spec_start());
            } else {
                assert(zones[idx].spec_start() <= zones[m].spec_start());
                assert(zones[m].spec_start() <= zones[j].spec_start());
            }
        }
    }
}

/// Scans outward from the zone at `idx`, first to the left and then to the
/// right, and collects the offsets that `filter` takes.
pub fn intersect_by_filter(zones: &Vec<Zone>, idx: usize, filter: &ZoneFilter) -> (out: Vec<usize>)
    requires
        idx < zones.len(),
        indexed(zones@),
    ensures
        out@ == spec_intersect(zones@, idx as int, filter@),
        in_range(out@, zones@.len()),
        forall|k: int| 0 <= k < out@.len() ==> #[trigger] out@[k] != idx,
{
    let mut out: Vec<usize> = Vec::new();
    let zone = &zones[idx];
    let ghost left = scan_left(zones@, filter@, *zone, idx - 1);
    let ghost right = scan_right(zones@, filter@, *zone, idx + 1);
    proof {
        lemma_scan_left_in_range(zones@, filter@, *zone, idx - 1);
        lemma_scan_right_in_range(zones@, filter@, *zone, idx + 1);
    }

    let mut curr_idx: usize = idx;
    while curr_idx > 0
        invariant_except_break
            left == out@ + scan_left(zones@, filter@, *zone, curr_idx - 1),
        invariant
            curr_idx <= idx < zones.len(),
            indexed(zones@),
            left == scan_left(zones@, filter@, *zone, idx - 1),
        ensures
            out@ == left,
        decreases curr_idx,
    {
        let next_idx: usize = curr_idx - 1;
        let z = &zones[next_idx];
        match filter.decide(zone, z) {
            FilterResult::Add => {
                assert(out@.push(next_idx) + scan_left(zones@, filter@, *zone, next_idx - 1)
                    =~= out@ + (seq![next_idx] + scan_left(zones@, filter@, *zone, next_idx - 1)));
                out.push(z.idx);
            },
            FilterResult::Break => {
                assert(out@ + Seq::<usize>::empty() =~= out@);
                break ;
            },
            FilterResult::Continue => {},
        }
        curr_idx = next_idx;
    }
    assert(out@ == left) by {
        assert(out@ + Seq::<usize>::empty() =~= out@);
    }

    let mut curr_idx: usize = idx;
    while curr_idx + 1 < zones.len()
        invariant_except_break
            left + right == out@ + scan_right(zones@, filter@, *zone, curr_idx + 1),
        invariant
            idx <= curr_idx < zones.len(),
            indexed(zones@),
            right == scan_right(zones@, filter@, *zone, idx + 1),
        ensures
            out@ == left + right,
        decreases zones.len() - curr_idx,
    {
        let next_idx: usize = curr_idx + 1;
        let z = &zones[next_idx];
        match filter.decide(zone, z) {
            FilterResult::Add => {
                assert(out@.push(next_idx) + scan_right(zones@, filter@, *zone, next_idx + 1)
                    =~= out@ + (seq![next_idx] + scan_right(zones@, filter@, *zone, next_idx + 1)));
                out.push(z.idx);
            },
            FilterResult::Break => {
                assert(out@ + Seq::<usize>::empty() =~= out@);
                break ;
            },
            FilterResult::Continue => {},
        }
        curr_idx = next_idx;
    }
    assert(out@ == left + right) by {
        assert(out@ + Seq::<usize>::empty() =~= out@);
    }
    out
}

/// The zones inside the zone at `idx` that follow on it without a gap in
/// containment, to the left and then to the right.
pub fn contains_intersect(zones: &Vec<Zone>, idx: usize) -> (out: Vec<usize>)
    requires
        idx < zones.len(),
        indexed(zones@),
    ensures
        out@ == spec_intersect(zones@, idx as int, Relation::Contained),
        in_range(out@, zones@.len()),
{
    intersect_by_filter(zones, idx, &ZoneFilter::Contained)
}

/// The zones that straddle a boundary of the zone at `idx`.
pub fn partial_intersect(zones: &Vec<Zone>, idx: usize) -> (out: Vec<usize>)
    requires
        idx < zones.len(),
        indexed(zones@),
    ensures
        out@ == spec_intersect(zones@, idx as int, Relation::Partial),
        in_range(out@, zones@.len()),
{
    intersect_by_filter(zones, idx, &ZoneFilter::Partial)
}

/// The zones inside the zone at `idx` that carry one of `names`, found
/// across neighbours that overlap the pivot in any way.
pub fn contained_ignores(zones: &Vec<Zone>, idx: usize, names: &Vec<String>) -> (out: Vec<usize>)
    requires
        idx < zones.len(),
        indexed(zones@),
    ensures
        out@ == spec_intersect(zones@, idx as int, Relation::ContainedNamed(names@)),
        in_range(out@, zones@.len()),
{
    intersect_by_filter(zones, idx, &ZoneFilter::ContainedNamed(names))
}

/// Every zone that the zone at `idx` lies inside: those to the left, nearest
/// first, then those to the right, nearest first.
pub fn get_parents(zones: &Vec<Zone>, idx: usize) -> (out: Vec<usize>)
    requires
        idx < zones.len(),
        indexed(zones@),
    ensures
        out@ == spec_intersect(zones@, idx as int, Relation::Parents),
        in_range(out@, zones@.len()),
{
    intersect_by_filter(zones, idx, &ZoneFilter::Parents)
}

/// The time that `zone` shares with each of the zones at `idxs`, added up.
/// A zone that is listed twice counts twice.
pub open spec fn intersection_sum(zones: Seq<Zone>, zone: Zone, idxs: Seq<usize>) -> int
    decreases idxs.len(),
{
    if idxs.len() == 0 {
        0
    } else {
        intersection_sum(zones, zone, idxs.drop_last()) + zone.spec_duration_intersection(
            &zones[idxs.last() as int],
        )
    }
}

/// `n`, or the largest timestamp where `n` is beyond it.
pub open spec fn capped(n: int) -> int {
    if n <= u64::MAX {
        n
    } else {
        u64::MAX as int
    }
}

/// A sum of shared times is never negative.
pub proof fn lemma_intersection_sum_nonnegative(zones: Seq<Zone>, zone: Zone, idxs: Seq<usize>)
    ensures
        intersection_sum(zones, zone, idxs) >= 0,
    decreases idxs.len(),
{
    if idxs.len() > 0 {
        lemma_intersection_sum_nonnegative(zones, zone, idxs.drop_last());
    }
}

/// Adds up the time that `zone` shares with each of the zones at
/// `containers`.  The sum stops at the largest timestamp.
pub fn sum_zone_indices(zones: &Vec<Zone>, zone: &Zone, containers: &Vec<usize>) -> (sum: u64)
    requires
        in_range(containers@, zones@.len()),
    ensures
        sum == capped(intersection_sum(zones@, *zone, containers@)),
{
    let mut sum: u64 = 0;
    let mut i: usize = 0;
    while i < containers.len()
        invariant
            i <= containers.len(),
            in_range(containers@, zones@.len()),
            sum == capped(intersection_sum(zones@, *zone, containers@.take(i as int))),
        decreases containers.len() - i,
    {
        proof {
            assert(containers@.take(i + 1).drop_last() =~= containers@.take(i as int));
            lemma_intersection_sum_nonnegative(zones@, *zone, containers@.take(i as int));
        }
        let other_zone = &zones[containers[i]];
        sum = sum.saturating_add(zone.get_duration_intersection(other_zone));
        i += 1;
    }
    assert(containers@.take(i as int) =~= containers@);
    sum
}

/// One of the zones at `containers` contains the zone at `p`.
pub open spec fn inside_any(zones: Seq<Zone>, containers: Seq<usize>, p: usize) -> bool {
    exists|k: int|
        0 <= k < containers.len() && zones[(#[trigger] containers[k]) as int].spec_contains(
            &zones[p as int],
        )
}

/// The test "none of the zones at `containers` contains the zone at this
/// offset".
pub open spec fn outside_all(zones: Seq<Zone>, containers: Seq<usize>) -> spec_fn(usize) -> bool {
    |p: usize| !inside_any(zones, containers, p)
}

/// Drops from `possible_contains` every zone that lies inside one of the
/// zones at `containers`, and keeps the order of the rest.
pub fn filter_out_contains(
    zones: &Vec<Zone>,
    containers: &Vec<usize>,
    possible_contains: &Vec<usize>,
) -> (out: Vec<usize>)
    requires
        in_range(containers@, zones@.len()),
        in_range(possible_contains@, zones@.len()),
    ensures
        out@ == possible_contains@.filter(outside_all(zones@, containers@)),
        in_range(out@, zones@.len()),
{
    let mut out: Vec<usize> = Vec::new();
    let ghost pred = outside_all(zones@, containers@);
    let mut i: usize = 0;
    while i < possible_contains.len()
        invariant
            i <= possible_contains.len(),
            in_range(containers@, zones@.len()),
            in_range(possible_contains@, zones@.len()),
            pred == outside_all(zones@, containers@),
            out@ == possible_contains@.take(i as int).filter(pred),
            in_range(out@, zones@.len()),
        decreases possible_contains.len() - i,
    {
        let possible: usize = possible_contains[i];
        let possible_zone = &zones[possible];
        let mut contained = false;
        let mut k: usize = 0;
        while k < containers.len()
            invariant_except_break
                !contained,
                forall|j: int|
                    0 <= j < k ==> !zones@[(#[trigger] containers@[j]) as int].spec_contains(
                        possible_zone,
                    ),
            invariant
                k <= containers.len(),
                possible < zones@.len(),
                *possible_zone == zones@[possible as int],
                in_range(containers@, zones@.len()),
            ensures
                contained == inside_any(zones@, containers@, possible),
            decreases containers.len() - k,
        {
            contained = zones[containers[k]].contains(possible_zone);
            if contained {
                break ;
            }
            k += 1;
        }
        proof {
            lemma_filter_take_step(possible_contains@, pred, i as int);
        }
        if !contained {
            out.push(possible);
        }
        i += 1;
    }
    assert(possible_contains@.take(i as int) =~= possible_contains@);
    out
}

/// The first of the offsets `idxs` whose zone is called `name`.
pub open spec fn first_named(zones: Seq<Zone>, idxs: Seq<usize>, name: Seq<char>) -> Option<usize> {
    let hits = idxs.filter(named(zones, name));
    if hits.len() > 0 {
        Some(hits[0])
    } else {
        None
    }
}

/// Looks through the offsets `idxs`, in the order given, for a zone called
/// `name`.
pub fn first_by_name_on_idx(zones: &Vec<Zone>, idxs: &Vec<usize>, name: &str) -> (found: Option<
    usize,
>)
    requires
        indexed(zones@),
        in_range(idxs@, zones@.len()),
    ensures
        found == first_named(zones@, idxs@, name@),
        found matches Some(i) ==> i < zones@.len() && zones@[i as int].name@ == name@,
{
    let wanted: String = name.to_owned();
    let ghost pred = named(zones@, name@);
    let mut i: usize = 0;
    while i < idxs.len()
        invariant
            i <= idxs.len(),
            indexed(zones@),
            in_range(idxs@, zones@.len()),
            wanted@ == name@,
            pred == named(zones@, name@),
            idxs@.take(i as int).filter(pred).len() == 0,
        decreases idxs.len() - i,
    {
        proof {
            lemma_filter_take_step(idxs@, pred, i as int);
        }
        let zone = &zones[idxs[i]];
        if zone.name == wanted {
            proof {
                lemma_filter_prefix(idxs@, pred, i + 1);
            }
            return Some(zone.idx);
        }
        i += 1;
    }
    assert(idxs@.take(i as int) =~= idxs@);
    None
}

} // verus!
