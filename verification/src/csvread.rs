//! Reading delimited text with the `csv` crate, one record at a time.

use vstd::prelude::*;

verus! {

#[verifier::external_type_specification]
#[verifier::external_body]
#[verifier::reject_recursive_types(R)]
pub struct ExCsvReader<R>(csv::Reader<R>);

/// The fields of a record, as character sequences.
pub open spec fn fields_view(v: Vec<String>) -> Seq<Seq<char>> {
    v@.map_values(|s: String| s@)
}

/// What `csv::Reader::headers` returns for a reader over `source` built with
/// `delimiter(delim)` and `flexible(true)`: the fields of the header row, or the
/// error's message.
pub uninterp spec fn csv_header(source: Seq<char>, delim: u8) -> Result<Seq<Seq<char>>, Seq<char>>;

/// The records such a reader yields after the header, in order, up to the end
/// of input: the fields of each record, or `None` for a record that failed.
pub uninterp spec fn csv_records(source: Seq<char>, delim: u8) -> Seq<Option<Seq<Seq<char>>>>;

/// A `csv` reader over a string, together with what it was built from and how
/// many records have been taken from it.
pub struct CsvRows<'a> {
    reader: csv::Reader<&'a [u8]>,
    source: &'a str,
    delim: u8,
    taken: usize,
}

impl<'a> CsvRows<'a> {
    /// The text being read.
    pub closed spec fn source(&self) -> Seq<char> {
        self.source@
    }

    /// The delimiter byte in use.
    pub closed spec fn delim(&self) -> u8 {
        self.delim
    }

    /// How many records have been taken so far.
    pub closed spec fn taken(&self) -> usize {
        self.taken
    }
}

/// `csv::ReaderBuilder::new().delimiter(delim).flexible(true).from_reader(..)`
/// over the bytes of `source`. Reading such a reader yields `csv_header` and
/// then `csv_records` of the source.
#[verifier::external_body]
pub(crate) fn open_csv<'a>(source: &'a str, delim: u8) -> (r: CsvRows<'a>)
    ensures
        r.source() == source@,
        r.delim() == delim,
        r.taken() == 0,
{
    let reader = csv::ReaderBuilder::new().delimiter(delim).flexible(true).from_reader(
        source.as_bytes(),
    );
    CsvRows { reader, source, delim, taken: 0 }
}

/// `csv::Reader::headers`: the header row's fields, or the error's message.
#[verifier::external_body]
pub(crate) fn csv_headers(rows: &mut CsvRows) -> (r: Result<Vec<String>, String>)
    requires
        old(rows).taken() == 0,
    ensures
        final(rows).source() == old(rows).source(),
        final(rows).delim() == old(rows).delim(),
        final(rows).taken() == 0,
        match (r, csv_header(old(rows).source(), old(rows).delim())) {
            (Ok(h), Ok(hv)) => fields_view(h) == hv,
            (Err(m), Err(mv)) => m@ == mv,
            _ => false,
        },
{
    match rows.reader.headers() {
        Ok(h) => Ok(h.iter().map(|f| f.to_string()).collect()),
        Err(e) => Err(e.to_string()),
    }
}

/// The next record (`csv::Reader::records().next()`): `None` at the end of the
/// input, `Some(None)` for a record that failed, `Some(Some(fields))` otherwise.
#[verifier::external_body]
pub(crate) fn csv_next(rows: &mut CsvRows) -> (r: Option<Option<Vec<String>>>)
    ensures
        final(rows).source() == old(rows).source(),
        final(rows).delim() == old(rows).delim(),
        ({
            let all = csv_records(old(rows).source(), old(rows).delim());
            let k = old(rows).taken();
            if k < all.len() {
                &&& final(rows).taken() == k + 1
                &&& match (r, all[k as int]) {
                    (Some(Some(f)), Some(fv)) => fields_view(f) == fv,
                    (Some(None), None) => true,
                    _ => false,
                }
            } else {
                &&& final(rows).taken() == k
                &&& r is None
            }
        }),
{
    let next = match rows.reader.records().next() {
        None => None,
        Some(Ok(rec)) => Some(Some(rec.iter().map(|f| f.to_string()).collect())),
        Some(Err(_)) => Some(None),
    };
    if next.is_some() {
        rows.taken += 1;
    }
    next
}

} // verus!
