//! Query descriptors and the records that queries produce.

use crate::text::{decimal, u64_to_string};
use vstd::prelude::*;
use vstd::string::*;

verus! {

/// Lists the timing fields of every zone called `node`.
#[derive(Debug)]
pub struct Stat {
    pub node: String,
}

/// Dumps the source records of one zone called `node` and of the zones
/// around it.  `ignore_count` picks the occurrence; without it the first.
#[derive(Debug)]
pub struct Reduce {
    pub node: String,
    pub ignore_count: Option<usize>,
}

/// Attributes the time around every zone called `node` to the two sides of
/// the call boundary that encloses it.
#[derive(Debug)]
pub struct Cost {
    pub node: String,
}

/// Measures every zone called `node` without the overlaps named in
/// `partial_ignore` and without the nested zones that the configuration
/// ignores.
#[derive(Debug)]
pub struct SelfTime {
    pub node: String,
    pub partial_ignore: Vec<String>,
}

/// Measures every zone called `node` without the nested zones that the
/// configuration ignores.
#[derive(Debug)]
pub struct TotalTime {
    pub node: String,
}

/// One question about the zones of a trace.
#[derive(Debug)]
pub enum Query {
    SelfTime(SelfTime),
    TotalTime(TotalTime),
    Reduce(Reduce),
    Stat(Stat),
    Cost(Cost),
}

/// One number that a query found for one zone: which kind of query, the
/// name of the zone, the number, and a note where there is one.
#[derive(Debug, Eq, PartialEq)]
pub struct DataPoint {
    pub query: String,
    pub name: String,
    pub count: u64,
    pub additional_data: Option<String>,
}

/// The timing fields of one zone, as recorded.
#[derive(Debug, Eq, PartialEq)]
pub struct StatResult {
    pub name: String,
    pub start_time: u64,
    pub end_time: u64,
    pub duration: u64,
}

/// How the time around one native call is shared: `cpp_duration` is the
/// time in the native code itself, `cost_of_javascript` the time on the
/// calling side of the boundary, `cost_of_args` the time spent converting
/// the arguments, and `cost_of_generated_bridge_method` the time in the
/// generated bridge, to which no zone is attributed.
#[derive(Debug, Eq, PartialEq)]
pub struct CostResult {
    pub name: String,
    pub cpp_duration: u64,
    pub cost_of_javascript: u64,
    pub cost_of_generated_bridge_method: u64,
    pub cost_of_args: u64,
}

/// One record of a query's answer.
#[derive(Debug, Eq, PartialEq)]
pub enum QueryResult {
    DataPoint(DataPoint),
    OriginalCsvRow(String),
    Stat(StatResult),
    Cost(CostResult),
}

/// A result record with its texts as sequences of characters.
pub enum ResultView {
    DataPoint { query: Seq<char>, name: Seq<char>, count: u64, additional_data: Option<Seq<char>> },
    OriginalCsvRow(Seq<char>),
    Stat { name: Seq<char>, start_time: u64, end_time: u64, duration: u64 },
    Cost {
        name: Seq<char>,
        cpp_duration: u64,
        cost_of_javascript: u64,
        cost_of_generated_bridge_method: u64,
        cost_of_args: u64,
    },
}

impl View for QueryResult {
    type V = ResultView;

    open spec fn view(&self) -> ResultView {
        match self {
            QueryResult::DataPoint(p) => ResultView::DataPoint {
                query: p.query@,
                name: p.name@,
                count: p.count,
                additional_data: match p.additional_data {
                    Some(s) => Some(s@),
                    None => None,
                },
            },
            QueryResult::OriginalCsvRow(s) => ResultView::OriginalCsvRow(s@),
            QueryResult::Stat(s) => ResultView::Stat {
                name: s.name@,
                start_time: s.start_time,
                end_time: s.end_time,
                duration: s.duration,
            },
            QueryResult::Cost(c) => ResultView::Cost {
                name: c.name@,
                cpp_duration: c.cpp_duration,
                cost_of_javascript: c.cost_of_javascript,
                cost_of_generated_bridge_method: c.cost_of_generated_bridge_method,
                cost_of_args: c.cost_of_args,
            },
        }
    }
}

/// The records of a list, each by its view.
pub open spec fn result_views(results: Seq<QueryResult>) -> Seq<ResultView> {
    results.map_values(|r: QueryResult| r@)
}

/// The line that a record is printed as: its fields, separated by commas.
/// A source record is printed as it was read.
pub open spec fn rendered(r: ResultView) -> Seq<char> {
    match r {
        ResultView::DataPoint { query, name, count, additional_data } => query + seq![','] + name
            + seq![','] + decimal(count as nat) + seq![','] + (match additional_data {
            Some(s) => s,
            None => Seq::empty(),
        }),
        ResultView::OriginalCsvRow(s) => s,
        ResultView::Stat { name, start_time, end_time, duration } => name + seq![','] + decimal(
            duration as nat,
        ) + seq![','] + decimal(start_time as nat) + seq![','] + decimal(end_time as nat),
        ResultView::Cost {
            name,
            cpp_duration,
            cost_of_javascript,
            cost_of_generated_bridge_method,
            cost_of_args,
        } => name + seq![','] + decimal(cpp_duration as nat) + seq![','] + decimal(
            cost_of_javascript as nat,
        ) + seq![','] + decimal(cost_of_args as nat) + seq![','] + decimal(
            cost_of_generated_bridge_method as nat,
        ),
    }
}

/// Appends a comma and then `n` in decimal.
fn push_number(line: &mut String, n: u64)
    ensures
        final(line)@ == old(line)@ + seq![','] + decimal(n as nat),
{
    proof {
        reveal_strlit(",");
    }
    assert(","@ =~= seq![',']);
    line.append(",");
    let digits = u64_to_string(n);
    line.append(digits.as_str());
}

impl QueryResult {
    /// The line that the record is printed as.
    pub fn to_string(&self) -> (line: String)
        ensures
            line@ == rendered(self@),
    {
        proof {
            reveal_strlit(",");
        }
        assert(","@ =~= seq![',']);
        match self {
            QueryResult::DataPoint(p) => {
                let mut line = p.query.clone();
                line.append(",");
                line.append(p.name.as_str());
                push_number(&mut line, p.count);
                line.append(",");
                match &p.additional_data {
                    Some(s) => {
                        line.append(s.as_str());
                    },
                    None => {
                        assert(line@ + Seq::<char>::empty() =~= line@);
                    },
                }
                line
            },
            QueryResult::OriginalCsvRow(s) => s.clone(),
            QueryResult::Stat(s) => {
                let mut line = s.name.clone();
                push_number(&mut line, s.duration);
                push_number(&mut line, s.start_time);
                push_number(&mut line, s.end_time);
                line
            },
            QueryResult::Cost(c) => {
                let mut line = c.name.clone();
                push_number(&mut line, c.cpp_duration);
                push_number(&mut line, c.cost_of_javascript);
                push_number(&mut line, c.cost_of_args);
                push_number(&mut line, c.cost_of_generated_bridge_method);
                line
            },
        }
    }
}

} // verus!
