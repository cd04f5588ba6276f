//! Reading the fields of a CSV record.
//!
//! Records come from the `csv` crate.  What this module states of them is
//! taken on trust from that crate; everything built on top is verified.

use vstd::prelude::*;

verus! {

/// `csv::StringRecord`: one record of a CSV file, as a list of fields.
/// Nothing is known of a record but what the items below state.
#[verifier::external_type_specification]
#[verifier::external_body]
pub struct ExStringRecord(csv::StringRecord);

/// The fields of a record, in order, each as its characters.
pub uninterp spec fn record_fields(record: csv::StringRecord) -> Seq<Seq<char>>;

/// `csv::StringRecord::len`: the number of fields in the record.
pub assume_specification[ csv::StringRecord::len ](record: &csv::StringRecord) -> (n: usize)
    ensures
        n == record_fields(*record).len(),
;

/// `csv::StringRecord::get`: the field at offset `i`, or nothing where the
/// record has no such field.
pub assume_specification<'a>[ csv::StringRecord::get ](
    record: &'a csv::StringRecord,
    i: usize,
) -> (got: Option<&'a str>)
    ensures
        got is Some <==> i < record_fields(*record).len(),
        got matches Some(text) ==> text@ == record_fields(*record)[i as int],
;

/// The fields, with `sep` between each two of them.
pub open spec fn joined(fields: Seq<Seq<char>>, sep: Seq<char>) -> Seq<char>
    decreases fields.len(),
{
    if fields.len() == 0 {
        Seq::empty()
    } else if fields.len() == 1 {
        fields[0]
    } else {
        joined(fields.drop_last(), sep) + sep + fields.last()
    }
}

/// `Itertools::join` over `csv::StringRecord::iter`: the iterator yields the
/// fields in order, and the join writes them out with `sep` between each
/// two, and nothing for a record without fields.
#[verifier::external_body]
pub(crate) fn join_fields(record: &csv::StringRecord, sep: &str) -> (line: String)
    ensures
        line@ == joined(record_fields(*record), sep@),
{
    itertools::Itertools::join(&mut record.iter(), sep)
}

/// Every record has at least `n` fields.
pub open spec fn all_have_fields(records: Seq<csv::StringRecord>, n: nat) -> bool {
    forall|i: int| 0 <= i < records.len() ==> record_fields(#[trigger] records[i]).len() >= n
}

/// Whether the record has at least `n` fields.
pub fn has_fields(record: &csv::StringRecord, n: usize) -> (enough: bool)
    ensures
        enough == (record_fields(*record).len() >= n),
{
    record.len() >= n
}

/// The field at offset `i` of a record that has one.
pub fn field(record: &csv::StringRecord, i: usize) -> (text: &str)
    requires
        i < record_fields(*record).len(),
    ensures
        text@ == record_fields(*record)[i as int],
{
    match record.get(i) {
        Some(text) => text,
        None => "",
    }
}

} // verus!
