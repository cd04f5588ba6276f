//! Time attribution over instrumentation traces.
//!
//! A trace is a list of named time intervals ("zones").  The modules below
//! compare intervals, search a time-sorted list of zones for the neighbours
//! that overlap a pivot, and answer queries about how time is shared among
//! nested and overlapping zones.

pub mod error;
pub mod node;
pub mod opts;
pub mod parse;
pub mod query;
pub mod record;
pub mod seqs;
pub mod sorting;
pub mod text;
pub mod tm_csv;
pub mod tracks;
pub mod zone;
pub mod zone_search;
pub mod zones;
