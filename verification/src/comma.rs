//! Comma-separated records, as the `csv` crate writes them.
use vstd::prelude::*;

verus! {

/// The texts of strings.
pub open spec fn texts(strings: Seq<String>) -> Seq<Seq<char>> {
    strings.map_values(|s: String| s@)
}

/// A text with every quotation mark doubled.
pub open spec fn doubled(text: Seq<char>) -> Seq<char>
    decreases text.len(),
{
    if text.len() == 0 {
        seq![]
    } else if text.last() == '"' {
        doubled(text.drop_last()).push('"').push('"')
    } else {
        doubled(text.drop_last()).push(text.last())
    }
}

/// A text that would be misread as it stands.
pub open spec fn needs_quotes(text: Seq<char>) -> bool {
    text.contains(',') || text.contains('"') || text.contains('\n') || text.contains('\r')
}

/// A field of a record: quoted where it has to be.
pub open spec fn field(text: Seq<char>) -> Seq<char> {
    if needs_quotes(text) {
        seq!['"'] + doubled(text) + seq!['"']
    } else {
        text
    }
}

/// Fields with commas between them.
pub open spec fn joined(fields: Seq<Seq<char>>) -> Seq<char>
    decreases fields.len(),
{
    if fields.len() == 0 {
        seq![]
    } else if fields.len() == 1 {
        field(fields[0])
    } else {
        joined(fields.drop_last()) + seq![','] + field(fields.last())
    }
}

/// A record on a line of its own; one that would be empty is written as an empty field in quotes.
pub open spec fn line(fields: Seq<Seq<char>>) -> Seq<char> {
    if joined(fields).len() == 0 {
        seq!['"', '"', '\n']
    } else {
        joined(fields).push('\n')
    }
}

/// The lines of a sequence of records.
pub open spec fn lines(records: Seq<Seq<Seq<char>>>) -> Seq<char>
    decreases records.len(),
{
    if records.len() == 0 {
        seq![]
    } else {
        lines(records.drop_last()) + line(records.last())
    }
}

/// Writes one record.
///
/// `csv::Writer::write_record` on a writer of default settings puts a comma between fields and a
/// line feed at the end. It quotes the fields that hold a comma, a quotation mark, a line feed or
/// a carriage return, and doubles the quotation marks in them; where nothing at all came before
/// the line feed, it writes two quotation marks. On a first record to a `Vec` it does not fail.
#[verifier::external_body]
pub(crate) fn record_line(fields: &Vec<String>) -> (s: String)
    ensures
        s@ == line(texts(fields@)),
{
    let mut w = csv::Writer::from_writer(Vec::new());
    w.write_record(fields).unwrap();
    String::from_utf8(w.into_inner().unwrap()).unwrap()
}

} // verus!
