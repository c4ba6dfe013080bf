//! Delimited text: records written and read by the `csv` crate, with its
//! default configuration.

use vstd::prelude::*;
use vstd::seq_lib::*;

verus! {

/// The error type of the `csv` crate, carried through as it comes.
#[verifier::external_type_specification]
#[verifier::external_body]
pub struct ExCsvError(csv::Error);

/// The bytes that a `csv::Writer` of the default configuration writes for
/// one record, given the characters of its fields: the fields, quoted where
/// the format asks for it, between delimiters, and the record terminator.
pub uninterp spec fn csv_record_bytes(fields: Seq<Seq<char>>) -> Seq<u8>;

/// The records that a `csv::Reader` of the default configuration yields
/// from `bytes`, each as the characters of its fields, or `None` where the
/// reader reports an error. With that configuration the first record of the
/// data is a header row and is not among them.
pub uninterp spec fn csv_data_records(bytes: Seq<u8>) -> Option<Seq<Seq<Seq<char>>>>;

/// The delimited text of `rows`: the bytes of each record, one after the
/// other.
pub open spec fn csv_text(rows: Seq<Seq<Seq<char>>>) -> Seq<u8> {
    rows.flat_map(|fields: Seq<Seq<char>>| csv_record_bytes(fields))
}

/// A character of one byte that the delimited format writes as it is:
/// neither the delimiter, nor the quote, nor a carriage return or line feed.
pub open spec fn plain_char(c: char) -> bool {
    &&& (c as int) < 128
    &&& c != ','
    &&& c != '"'
    &&& c != '\r'
    &&& c != '\n'
}

/// A field of plain characters.
pub open spec fn plain_field(field: Seq<char>) -> bool {
    forall|i: int| 0 <= i < field.len() ==> plain_char(#[trigger] field[i])
}

/// A record that the delimited format writes without a quote: it has a
/// field, every field is plain, and it is not one empty field alone.
pub open spec fn plain_record(fields: Seq<Seq<char>>) -> bool {
    &&& fields.len() > 0
    &&& forall|j: int| 0 <= j < fields.len() ==> plain_field(#[trigger] fields[j])
    &&& !(fields.len() == 1 && fields[0].len() == 0)
}

/// Every record is plain.
pub open spec fn plain_rows(rows: Seq<Seq<Seq<char>>>) -> bool {
    forall|i: int| 0 <= i < rows.len() ==> plain_record(#[trigger] rows[i])
}

/// The bytes of characters of one byte each.
pub open spec fn ascii_bytes(text: Seq<char>) -> Seq<u8> {
    Seq::new(text.len(), |i: int| text[i] as u8)
}

/// The fields as they are, with a comma between them and a line feed after
/// the last.
pub open spec fn plain_line(fields: Seq<Seq<char>>) -> Seq<u8>
    decreases fields.len(),
{
    if fields.len() == 0 {
        seq![10u8]
    } else if fields.len() == 1 {
        ascii_bytes(fields[0]) + seq![10u8]
    } else {
        ascii_bytes(fields[0]) + seq![44u8] + plain_line(fields.drop_first())
    }
}

/// The plain lines of `rows`, one after the other.
pub open spec fn plain_text(rows: Seq<Seq<Seq<char>>>) -> Seq<u8> {
    rows.flat_map(|fields: Seq<Seq<char>>| plain_line(fields))
}

/// `csv::Writer::write_record`, on a writer made by `Writer::from_writer`
/// over an empty byte vector and taken apart by `Writer::into_inner`. The
/// contract claims that the bytes depend on the fields alone, and that the
/// call returns them: a vector takes every write, and a writer's first
/// record fixes the number of fields, so neither call has an error to give.
/// It claims further that a plain record is written as its fields between
/// commas and a line feed: the writer quotes a field only for a delimiter, a
/// quote, a carriage return or a line feed in it, and a record only where
/// it is one empty field.
#[verifier::external_body]
fn encode_record(fields: &Vec<String>) -> (bytes: Vec<u8>)
    ensures
        bytes@ == csv_record_bytes(fields.deep_view()),
        plain_record(fields.deep_view()) ==> bytes@ == plain_line(fields.deep_view()),
{
    let mut writer = csv::Writer::from_writer(Vec::new());
    writer.write_record(fields).expect("the first record of a writer over a vector");
    writer.into_inner().expect("a flush into a vector")
}

/// `csv::Reader::records`, on a reader made by `Reader::from_reader` over
/// the bytes, gathered up to the first error. The contract claims that the
/// outcome depends on the bytes alone: the records where every one was read,
/// the error otherwise.
#[verifier::external_body]
pub(crate) fn decode_records(bytes: &Vec<u8>) -> (out: Result<Vec<Vec<String>>, csv::Error>)
    ensures
        match out {
            Ok(rows) => csv_data_records(bytes@) == Some(rows.deep_view()),
            Err(_) => csv_data_records(bytes@) is None,
        },
{
    let mut reader = csv::Reader::from_reader(bytes.as_slice());
    reader.records().map(|r| r.map(|rec| rec.iter().map(String::from).collect())).collect()
}

/// The delimited text of `rows`, record after record. Where every record
/// is plain, that is one line for each, its fields between commas.
pub fn write_records(rows: &Vec<Vec<String>>) -> (bytes: Vec<u8>)
    ensures
        bytes@ == csv_text(rows.deep_view()),
        plain_rows(rows.deep_view()) ==> bytes@ == plain_text(rows.deep_view()),
{
    let ghost f = |fields: Seq<Seq<char>>| csv_record_bytes(fields);
    let ghost g = |fields: Seq<Seq<char>>| plain_line(fields);
    let mut bytes: Vec<u8> = Vec::new();
    let mut i: usize = 0;
    proof {
        assert(rows.deep_view().take(0) =~= Seq::<Seq<Seq<char>>>::empty());
        assert(Seq::<Seq<Seq<char>>>::empty().flat_map(f) =~= Seq::<u8>::empty());
        assert(Seq::<Seq<Seq<char>>>::empty().flat_map(g) =~= Seq::<u8>::empty());
    }
    while i < rows.len()
        invariant
            i <= rows@.len(),
            f == (|fields: Seq<Seq<char>>| csv_record_bytes(fields)),
            g == (|fields: Seq<Seq<char>>| plain_line(fields)),
            bytes@ == rows.deep_view().take(i as int).flat_map(f),
            plain_rows(rows.deep_view()) ==> bytes@ == rows.deep_view().take(i as int).flat_map(g),
        decreases rows@.len() - i,
    {
        let mut line = encode_record(&rows[i]);
        proof {
            let all = rows.deep_view();
            assert(all[i as int] == rows@[i as int].deep_view());
            all.lemma_flat_map_take_append(f, i as int);
            all.lemma_flat_map_take_append(g, i as int);
            if plain_rows(all) {
                assert(plain_record(all[i as int]));
            }
        }
        bytes.append(&mut line);
        i += 1;
    }
    proof {
        assert(rows.deep_view().take(i as int) =~= rows.deep_view());
    }
    bytes
}

} // verus!
