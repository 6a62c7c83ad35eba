//! Reading a table of zip codes and their population from comma-separated
//! values.

use vstd::prelude::*;
use vstd::string::*;
use vstd::utf8::*;

verus! {

/// The rows of a table of zip codes and their population that is written
/// as comma-separated values under a header line: each zip code with the
/// number of people; `None` where the text is no such table.
pub uninterp spec fn population_rows_of(text: Seq<char>) -> Option<Seq<(Seq<char>, u64)>>;

/// The rows of a population table, with each zip code as its text.
pub open spec fn row_texts(rows: Seq<(String, u64)>) -> Seq<(Seq<char>, u64)> {
    rows.map_values(|row: (String, u64)| (row.0@, row.1))
}

/// The rows of a population table, with each zip code as its bytes.
pub open spec fn text_row_bytes(rows: Seq<(Seq<char>, u64)>) -> Seq<(Seq<u8>, u64)> {
    rows.map_values(|row: (Seq<char>, u64)| (encode_utf8(row.0), row.1))
}

/// Reads a table of zip codes and their population.
///
/// Calls `Reader::from_reader` and `Reader::deserialize` of the `csv` crate:
/// the first line is taken for a header, and every other line must hold a
/// text and a number that fits a `u64`.  The contract gives the rows a name
/// and says only that they depend on the text alone; a text that cannot be
/// read so gives nothing.
#[verifier::external_body]
pub(crate) fn read_population_rows(text: &str) -> (r: Option<Vec<(String, u64)>>)
    ensures
        match r {
            Some(rows) => population_rows_of(text@) == Some(row_texts(rows@)),
            None => population_rows_of(text@) is None,
        },
{
    csv::Reader::from_reader(text.as_bytes()).deserialize::<(String, u64)>().collect::<Result<_, _>>().ok()
}

} // verus!
