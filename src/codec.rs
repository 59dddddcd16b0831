use vstd::prelude::*;
use crate::fields::fview;

verus! {

/// The JSON text that serde_json writes for a map from column to value.
pub uninterp spec fn json_object_of(entries: Seq<(Seq<char>, Seq<char>)>) -> Seq<char>;

/// What serde_json reads from a text as a map from string to string.
pub uninterp spec fn json_object_read(text: Seq<char>) -> Option<Seq<(Seq<char>, Seq<char>)>>;

/// The JSON text that serde_json writes for a string.
pub uninterp spec fn json_string_of(s: Seq<char>) -> Seq<char>;

/// What serde_json reads from a text as a string.
pub uninterp spec fn json_string_read(text: Seq<char>) -> Option<Seq<char>>;

/// The CSV line that the csv crate writes for one record.
pub uninterp spec fn csv_line_of(record: Seq<Seq<char>>) -> Seq<char>;

/// The records that the csv crate reads from a text.
pub uninterp spec fn csv_read(text: Seq<char>) -> Option<Seq<Seq<Seq<char>>>>;

/// The text view of a list of records.
pub open spec fn rview(r: Seq<Vec<String>>) -> Seq<Seq<Seq<char>>> {
    r.map_values(|rec: Vec<String>| rec@.map_values(|f: String| f@))
}

/// Relies on `serde_json::to_string` on a `BTreeMap<&str, &str>`: the JSON
/// object of the pairs. The pairs go into a `BTreeMap`, whose order is
/// that of its keys, so the text depends on the pairs alone.
#[verifier::external_body]
pub(crate) fn json_object(data: &Vec<(String, String)>) -> (r: String)
    ensures
        r@ == json_object_of(fview(data@)),
{
    let m: std::collections::BTreeMap<&str, &str> =
        data.iter().map(|p| (p.0.as_str(), p.1.as_str())).collect();
    match serde_json::to_string(&m) {
        Ok(s) => s,
        Err(_) => String::new(),
    }
}

/// Relies on `serde_json::from_str` into a `BTreeMap<String, String>`: the
/// pairs of a JSON object of strings, in the order of their keys; `None`
/// where the text is not such an object.
#[verifier::external_body]
pub(crate) fn parse_json_object(text: &str) -> (r: Option<Vec<(String, String)>>)
    ensures
        match r {
            Some(v) => json_object_read(text@) == Some(fview(v@)),
            None => json_object_read(text@) is None,
        },
{
    match serde_json::from_str::<std::collections::BTreeMap<String, String>>(text) {
        Ok(m) => Some(m.into_iter().collect()),
        Err(_) => None,
    }
}

/// Relies on `serde_json::to_string` on a `&str`: the quoted and escaped
/// JSON string.
#[verifier::external_body]
pub(crate) fn json_string(s: &str) -> (r: String)
    ensures
        r@ == json_string_of(s@),
{
    match serde_json::to_string(s) {
        Ok(t) => t,
        Err(_) => String::new(),
    }
}

/// Relies on `serde_json::from_str` into a `String`: the string that a JSON
/// text denotes, `None` where the text is not a JSON string.
#[verifier::external_body]
pub(crate) fn parse_json_string(text: &str) -> (r: Option<String>)
    ensures
        match r {
            Some(s) => json_string_read(text@) == Some(s@),
            None => json_string_read(text@) is None,
        },
{
    match serde_json::from_str::<String>(text) {
        Ok(s) => Some(s),
        Err(_) => None,
    }
}

/// Relies on `csv::Writer::write_record` into a `Vec<u8>`, with a fresh
/// flexible writer: the record's fields quoted per CSV rules, separated by
/// commas and ended by `\n`. A flexible writer into a `Vec` reports no
/// error, and its output from UTF-8 fields is UTF-8.
#[verifier::external_body]
fn csv_record(rec: &Vec<String>) -> (r: String)
    ensures
        r@ == csv_line_of(rec@.map_values(|f: String| f@)),
{
    let mut w = csv::WriterBuilder::new().flexible(true).from_writer(Vec::new());
    if w.write_record(rec).is_err() {
        return String::new();
    }
    match w.into_inner() {
        Ok(bytes) => String::from_utf8(bytes).unwrap_or_default(),
        Err(_) => String::new(),
    }
}

/// The CSV text of a list of records: their lines one after the other.
pub open spec fn csv_of(records: Seq<Seq<Seq<char>>>) -> Seq<char>
    decreases records.len(),
{
    if records.len() == 0 {
        seq![]
    } else {
        csv_of(records.drop_last()) + csv_line_of(records.last())
    }
}

/// The CSV text of `records`.
pub fn write_csv(records: &Vec<Vec<String>>) -> (r: String)
    ensures
        r@ == csv_of(rview(records@)),
{
    let mut out = String::new();
    let mut i: usize = 0;
    while i < records.len()
        invariant
            i <= records@.len(),
            csv_of(rview(records@).take(i as int)) == out@,
        decreases records@.len() - i,
    {
        proof {
            assert(rview(records@).take(i + 1).drop_last() =~= rview(records@).take(i as int));
            assert(rview(records@).take(i + 1).last() == records@[i as int]@.map_values(|f: String| f@));
        }
        let line = csv_record(&records[i]);
        out.append(line.as_str());
        i = i + 1;
    }
    assert(rview(records@).take(i as int) =~= rview(records@));
    out
}

/// Relies on `csv::Reader::records` without a header line: every record of
/// the text, `None` where the reader reports an error.
#[verifier::external_body]
pub(crate) fn read_csv(text: &str) -> (r: Option<Vec<Vec<String>>>)
    ensures
        match r {
            Some(v) => csv_read(text@) == Some(rview(v@)),
            None => csv_read(text@) is None,
        },
{
    let mut rdr = csv::ReaderBuilder::new().has_headers(false).from_reader(text.as_bytes());
    let mut out = Vec::new();
    for rec in rdr.records() {
        match rec {
            Ok(r) => out.push(r.iter().map(|f| f.to_string()).collect()),
            Err(_) => return None,
        }
    }
    Some(out)
}

} // verus!
