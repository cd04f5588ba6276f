//! Queries over a sorted, indexed list of zones.
//!
//! Every query reads the list and the configuration and returns its records
//! in the order in which the zones it is about stand in the list.

pub mod calculations;
pub mod query;
pub mod query_config;

use self::calculations::{
    at_least_zero, calculate_self_time, calculate_total_time, get_impl_arg, get_start_of_cpp,
    spec_impl_arg, spec_self_time, spec_start_of_cpp, spec_total_time,
};
use self::query::{
    result_views, Cost, CostResult, DataPoint, Query, QueryResult, Reduce, ResultView, SelfTime,
    Stat, StatResult, TotalTime,
};
use self::query_config::QueryConfig;
use crate::seqs::lemma_map_take_step;
use crate::zone_search::{
    contains_intersect, get_by_name, get_parents, in_range, indexed, named, offsets,
    partial_intersect, spec_intersect, Relation,
};
use crate::zones::Zone;
use vstd::prelude::*;

verus! {

/// The offsets of the zones called `name`, in ascending order.
pub open spec fn occurrences(zones: Seq<Zone>, name: Seq<char>) -> Seq<usize> {
    offsets(zones.len()).filter(named(zones, name))
}

/// The source record of the zone at an offset, as a result record.
pub open spec fn original_row(zones: Seq<Zone>) -> spec_fn(usize) -> ResultView {
    |i: usize| ResultView::OriginalCsvRow(zones[i as int].original_csv@)
}

/// The self time of the zone at an offset, as a result record.
pub open spec fn self_time_point(
    zones: Seq<Zone>,
    partial_ignore: Seq<String>,
    ignores: Seq<String>,
) -> spec_fn(usize) -> ResultView {
    |i: usize|
        ResultView::DataPoint {
            query: "SelfTime"@,
            name: zones[i as int].name@,
            count: spec_self_time(zones, i as int, partial_ignore, ignores) as u64,
            additional_data: None,
        }
}

/// The total time of the zone at an offset, as a result record.
pub open spec fn total_time_point(zones: Seq<Zone>, ignores: Seq<String>) -> spec_fn(
    usize,
) -> ResultView {
    |i: usize|
        ResultView::DataPoint {
            query: "TotalTime"@,
            name: zones[i as int].name@,
            count: spec_total_time(zones[i as int], zones, ignores) as u64,
            additional_data: None,
        }
}

/// The timing fields of the zone at an offset, as a result record.
pub open spec fn stat_point(zones: Seq<Zone>) -> spec_fn(usize) -> ResultView {
    |i: usize|
        ResultView::Stat {
            name: zones[i as int].name@,
            start_time: zones[i as int].start_time,
            end_time: zones[i as int].end_time,
            duration: zones[i as int].duration,
        }
}

/// The cost record of the zone at an offset, or nothing where no zone
/// around it marks the entry into native code.
///
/// The native side is the zone's self time.  The calling side is the total
/// time of the entry zone less the native side, and not less than zero.  The
/// argument time is the self time of the zone that converts the arguments,
/// or zero without one.  No time is attributed to the generated bridge.
pub open spec fn cost_point(zones: Seq<Zone>, ignores: Seq<String>) -> spec_fn(usize) -> Option<
    ResultView,
> {
    |i: usize|
        match spec_start_of_cpp(zones, spec_intersect(zones, i as int, Relation::Parents)) {
            None => None,
            Some(start) => {
                let self_time = spec_self_time(zones, i as int, Seq::empty(), ignores);
                let total_time = spec_total_time(zones[start as int], zones, ignores);
                Some(
                    ResultView::Cost {
                        name: zones[i as int].name@,
                        cpp_duration: self_time as u64,
                        cost_of_javascript: at_least_zero(total_time - self_time) as u64,
                        cost_of_generated_bridge_method: 0,
                        cost_of_args: match spec_impl_arg(zones, start as int) {
                            Some(arg) => spec_self_time(
                                zones,
                                arg as int,
                                Seq::empty(),
                                ignores,
                            ) as u64,
                            None => 0,
                        },
                    },
                )
            },
        }
}

/// The zone that a reduce query is about: the occurrence of its name that
/// it counts to, if there are that many.
pub open spec fn spec_reduce_target(query: Reduce, zones: Seq<Zone>) -> Option<usize> {
    let found = occurrences(zones, query.node@);
    let nth = match query.ignore_count {
        Some(n) => n,
        None => 0,
    };
    if nth < found.len() {
        Some(found[nth as int])
    } else {
        None
    }
}

/// The records of a reduce query about the zone at `target`: what straddles
/// it, what follows inside it, and then the zone itself.
pub open spec fn spec_reduce(zones: Seq<Zone>, target: int) -> Seq<ResultView> {
    spec_intersect(zones, target, Relation::Partial).map_values(original_row(zones))
        + spec_intersect(zones, target, Relation::Contained).map_values(original_row(zones))
        + seq![original_row(zones)(target as usize)]
}

/// What a query answers over a list of zones.
pub open spec fn spec_run_query(query: Query, config: QueryConfig, zones: Seq<Zone>) -> Seq<
    ResultView,
> {
    match query {
        Query::SelfTime(s) => occurrences(zones, s.node@).map_values(
            self_time_point(zones, s.partial_ignore@, config.ignores@),
        ),
        Query::TotalTime(t) => occurrences(zones, t.node@).map_values(
            total_time_point(zones, config.ignores@),
        ),
        Query::Reduce(r) => spec_reduce(zones, spec_reduce_target(r, zones).unwrap() as int),
        Query::Stat(s) => occurrences(zones, s.node@).map_values(stat_point(zones)),
        Query::Cost(c) => occurrences(zones, c.node@).filter_map(cost_point(zones, config.ignores@)),
    }
}

/// A query can be answered unless it is a reduce query about a zone that
/// the list does not hold.
pub open spec fn answerable(query: Query, zones: Seq<Zone>) -> bool {
    query matches Query::Reduce(r) ==> spec_reduce_target(r, zones) is Some
}

/// Answering the same query twice over the same configuration and the same
/// list gives the same records in the same order.
pub proof fn lemma_run_query_repeatable(
    query: Query,
    config: QueryConfig,
    zones: Seq<Zone>,
    first: Seq<QueryResult>,
    second: Seq<QueryResult>,
)
    requires
        result_views(first) == spec_run_query(query, config, zones),
        result_views(second) == spec_run_query(query, config, zones),
    ensures
        result_views(first) == result_views(second),
        first.len() == second.len(),
        forall|k: int| 0 <= k < first.len() ==> first[k]@ == second[k]@,
{
    assert(first.len() == result_views(first).len());
    assert(second.len() == result_views(second).len());
    assert forall|k: int| 0 <= k < first.len() implies first[k]@ == second[k]@ by {
        assert(result_views(first)[k] == first[k]@);
        assert(result_views(second)[k] == second[k]@);
    }
}

/// Appending to a list of records appends the view.
proof fn lemma_push_view(results: Seq<QueryResult>, r: QueryResult)
    ensures
        result_views(results.push(r)) == result_views(results).push(r@),
{
    assert(result_views(results.push(r)) =~= result_views(results).push(r@));
}

/// The source record of the zone at `idx`.
pub fn index_to_original_csv(zones: &Vec<Zone>, idx: usize) -> (row: QueryResult)
    requires
        idx < zones.len(),
    ensures
        row@ == original_row(zones@)(idx),
{
    QueryResult::OriginalCsvRow(zones[idx].original_csv.clone())
}

/// Appends the source record of each of the zones at `idxs`.
fn push_original_rows(out: &mut Vec<QueryResult>, zones: &Vec<Zone>, idxs: &Vec<usize>)
    requires
        in_range(idxs@, zones@.len()),
    ensures
        result_views(final(out)@) == result_views(old(out)@) + idxs@.map_values(
            original_row(zones@),
        ),
{
    let ghost before = result_views(out@);
    let ghost row = original_row(zones@);
    let mut i: usize = 0;
    assert(before + idxs@.take(0).map_values(row) =~= before);
    while i < idxs.len()
        invariant
            i <= idxs.len(),
            in_range(idxs@, zones@.len()),
            row == original_row(zones@),
            result_views(out@) == before + idxs@.take(i as int).map_values(row),
        decreases idxs.len() - i,
    {
        let r = index_to_original_csv(zones, idxs[i]);
        proof {
            lemma_push_view(out@, r);
            lemma_map_take_step(idxs@, row, i as int);
            assert((before + idxs@.take(i as int).map_values(row)).push(r@) =~= before
                + idxs@.take(i as int).map_values(row).push(r@));
        }
        out.push(r);
        i += 1;
    }
    assert(idxs@.take(i as int) =~= idxs@);
}

/// One data point with the self time of each zone called `query.node`.
pub fn self_time_query(query: &SelfTime, config: &QueryConfig, zones: &Vec<Zone>) -> (out: Vec<
    QueryResult,
>)
    requires
        indexed(zones@),
    ensures
        result_views(out@) == occurrences(zones@, query.node@).map_values(
            self_time_point(zones@, query.partial_ignore@, config.ignores@),
        ),
{
    let found = get_by_name(zones, query.node.as_str());
    let ghost point = self_time_point(zones@, query.partial_ignore@, config.ignores@);
    let mut out: Vec<QueryResult> = Vec::new();
    let mut i: usize = 0;
    assert(result_views(out@) =~= found@.take(0).map_values(point));
    while i < found.len()
        invariant
            i <= found.len(),
            indexed(zones@),
            in_range(found@, zones@.len()),
            point == self_time_point(zones@, query.partial_ignore@, config.ignores@),
            result_views(out@) == found@.take(i as int).map_values(point),
        decreases found.len() - i,
    {
        let z = &zones[found[i]];
        let r = QueryResult::DataPoint(
            DataPoint {
                query: "SelfTime".to_owned(),
                name: z.name.clone(),
                count: calculate_self_time(z.idx, zones, &query.partial_ignore, &config.ignores),
                additional_data: None,
            },
        );
        proof {
            lemma_push_view(out@, r);
            lemma_map_take_step(found@, point, i as int);
        }
        out.push(r);
        i += 1;
    }
    assert(found@.take(i as int) =~= found@);
    out
}

/// One data point with the total time of each zone called `query.node`.
pub fn total_time_query(query: &TotalTime, config: &QueryConfig, zones: &Vec<Zone>) -> (out: Vec<
    QueryResult,
>)
    requires
        indexed(zones@),
    ensures
        result_views(out@) == occurrences(zones@, query.node@).map_values(
            total_time_point(zones@, config.ignores@),
        ),
{
    let found = get_by_name(zones, query.node.as_str());
    let ghost point = total_time_point(zones@, config.ignores@);
    let mut out: Vec<QueryResult> = Vec::new();
    let mut i: usize = 0;
    assert(result_views(out@) =~= found@.take(0).map_values(point));
    while i < found.len()
        invariant
            i <= found.len(),
            indexed(zones@),
            in_range(found@, zones@.len()),
            point == total_time_point(zones@, config.ignores@),
            result_views(out@) == found@.take(i as int).map_values(point),
        decreases found.len() - i,
    {
        let z = &zones[found[i]];
        let r = QueryResult::DataPoint(
            DataPoint {
                query: "TotalTime".to_owned(),
                name: z.name.clone(),
                count: calculate_total_time(z, zones, &config.ignores),
                additional_data: None,
            },
        );
        proof {
            lemma_push_view(out@, r);
            lemma_map_take_step(found@, point, i as int);
        }
        out.push(r);
        i += 1;
    }
    assert(found@.take(i as int) =~= found@);
    out
}

/// The zone that `query` is about, if the list holds it.
pub fn reduce_target(query: &Reduce, zones: &Vec<Zone>) -> (target: Option<usize>)
    requires
        indexed(zones@),
    ensures
        target == spec_reduce_target(*query, zones@),
        target matches Some(t) ==> t < zones@.len(),
{
    let found = get_by_name(zones, query.node.as_str());
    let nth: usize = match query.ignore_count {
        Some(n) => n,
        None => 0,
    };
    if nth < found.len() {
        Some(found[nth])
    } else {
        None
    }
}

/// The source records of the zones that straddle the zone the query is
/// about, then of those that follow inside it, then its own.
pub fn reduce_query(query: &Reduce, zones: &Vec<Zone>) -> (out: Vec<QueryResult>)
    requires
        indexed(zones@),
        spec_reduce_target(*query, zones@) is Some,
    ensures
        result_views(out@) == spec_reduce(
            zones@,
            spec_reduce_target(*query, zones@).unwrap() as int,
        ),
{
    let found: usize = match reduce_target(query, zones) {
        Some(t) => t,
        None => 0,
    };
    let found_zone = &zones[found];
    let partials = partial_intersect(zones, found_zone.idx);
    let contains = contains_intersect(zones, found_zone.idx);
    let mut out: Vec<QueryResult> = Vec::new();
    assert(result_views(out@) =~= Seq::<ResultView>::empty());
    push_original_rows(&mut out, zones, &partials);
    push_original_rows(&mut out, zones, &contains);
    let own = QueryResult::OriginalCsvRow(found_zone.original_csv.clone());
    proof {
        lemma_push_view(out@, own);
        assert(result_views(out@).push(own@) =~= spec_reduce(zones@, found as int));
    }
    out.push(own);
    out
}

/// The timing fields of each zone called `stat.node`.
pub fn stat_query(stat: &Stat, zones: &Vec<Zone>) -> (out: Vec<QueryResult>)
    requires
        indexed(zones@),
    ensures
        result_views(out@) == occurrences(zones@, stat.node@).map_values(stat_point(zones@)),
{
    let found = get_by_name(zones, stat.node.as_str());
    let ghost point = stat_point(zones@);
    let mut out: Vec<QueryResult> = Vec::new();
    let mut i: usize = 0;
    assert(result_views(out@) =~= found@.take(0).map_values(point));
    while i < found.len()
        invariant
            i <= found.len(),
            in_range(found@, zones@.len()),
            point == stat_point(zones@),
            result_views(out@) == found@.take(i as int).map_values(point),
        decreases found.len() - i,
    {
        let z = &zones[found[i]];
        let r = QueryResult::Stat(
            StatResult {
                name: z.name.clone(),
                duration: z.duration,
                start_time: z.start_time,
                end_time: z.end_time,
            },
        );
        proof {
            lemma_push_view(out@, r);
            lemma_map_take_step(found@, point, i as int);
        }
        out.push(r);
        i += 1;
    }
    assert(found@.take(i as int) =~= found@);
    out
}

/// One cost record for each zone called `cost.node` that lies inside a zone
/// marking the entry into native code.  The others are passed over.
pub fn cost_query(cost: &Cost, config: &QueryConfig, zones: &Vec<Zone>) -> (out: Vec<QueryResult>)
    requires
        indexed(zones@),
    ensures
        result_views(out@) == occurrences(zones@, cost.node@).filter_map(
            cost_point(zones@, config.ignores@),
        ),
{
    let mut out: Vec<QueryResult> = Vec::new();
    let tmp_vec: Vec<String> = Vec::new();
    let found = get_by_name(zones, cost.node.as_str());
    let ghost point = cost_point(zones@, config.ignores@);
    let mut i: usize = 0;
    assert(result_views(out@) =~= found@.take(0).filter_map(point));
    while i < found.len()
        invariant
            i <= found.len(),
            indexed(zones@),
            in_range(found@, zones@.len()),
            tmp_vec@ == Seq::<String>::empty(),
            point == cost_point(zones@, config.ignores@),
            result_views(out@) == found@.take(i as int).filter_map(point),
        decreases found.len() - i,
    {
        let zone_idx: usize = found[i];
        let zone = &zones[zone_idx];
        proof {
            found@.lemma_filter_map_take_succ(point, i as int);
        }
        let self_time = calculate_self_time(zone.idx, zones, &tmp_vec, &config.ignores);
        let parents = get_parents(zones, zone_idx);
        match get_start_of_cpp(zones, &parents) {
            None => {
                assert(found@.take(i as int).filter_map(point) + Seq::<ResultView>::empty()
                    =~= found@.take(i as int).filter_map(point));
            },
            Some(start_of_cpp) => {
                let start_of_cpp = &zones[start_of_cpp];
                let to_cpp_total_time = calculate_total_time(start_of_cpp, zones, &config.ignores);
                let impl_time: u64 = match get_impl_arg(zones, start_of_cpp.idx) {
                    Some(arg) => calculate_self_time(arg, zones, &tmp_vec, &config.ignores),
                    None => 0,
                };
                let r = QueryResult::Cost(
                    CostResult {
                        name: zone.name.clone(),
                        cost_of_args: impl_time,
                        cost_of_javascript: to_cpp_total_time.saturating_sub(self_time),
                        cost_of_generated_bridge_method: 0,
                        cpp_duration: self_time,
                    },
                );
                proof {
                    lemma_push_view(out@, r);
                    assert(result_views(out@).push(r@) =~= result_views(out@) + seq![r@]);
                }
                out.push(r);
            },
        }
        i += 1;
    }
    assert(found@.take(i as int) =~= found@);
    out
}

/// Answers one query over the list of zones.
pub fn run_query(query: &Query, config: &QueryConfig, zones: &Vec<Zone>) -> (out: Vec<QueryResult>)
    requires
        indexed(zones@),
        answerable(*query, zones@),
    ensures
        result_views(out@) == spec_run_query(*query, *config, zones@),
{
    match query {
        Query::SelfTime(s) => self_time_query(s, config, zones),
        Query::TotalTime(t) => total_time_query(t, config, zones),
        Query::Reduce(r) => reduce_query(r, zones),
        Query::Stat(s) => stat_query(s, zones),
        Query::Cost(c) => cost_query(c, config, zones),
    }
}

} // verus!
