//! The configuration of a run: what to ignore and what to ask.

use super::query::Query;
use vstd::prelude::*;

verus! {

/// The names of the zones that do not count toward the zone that contains
/// them, and the queries to answer, in order.
#[derive(Debug)]
pub struct QueryConfig {
    pub ignores: Vec<String>,
    pub queries: Vec<Query>,
}

/// A configuration as it is read, before it is handed to the queries.
#[derive(Debug)]
pub struct QueryConfigParsed {
    pub ignores: Vec<String>,
    pub queries: Vec<Query>,
}

impl From<QueryConfigParsed> for QueryConfig {
    fn from(parsed: QueryConfigParsed) -> (config: QueryConfig) {
        QueryConfig { ignores: parsed.ignores, queries: parsed.queries }
    }
}

impl vstd::std_specs::convert::FromSpecImpl<QueryConfigParsed> for QueryConfig {
    open spec fn obeys_from_spec() -> bool {
        true
    }

    open spec fn from_spec(parsed: QueryConfigParsed) -> QueryConfig {
        QueryConfig { ignores: parsed.ignores, queries: parsed.queries }
    }
}

} // verus!
