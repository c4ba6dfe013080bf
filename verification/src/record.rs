//! The colour record of one image and its nine text fields.

use crate::text::{decimal_int, decimal_nat, push_decimal, push_signed_decimal};
use vstd::prelude::*;
use vstd::string::*;

verus! {

/// What a decoder reports of the colours of one raw image.
pub struct ColorFields {
    /// The black level.
    pub black: u32,
    /// The black level of each of the four channels, in the decoder's order.
    pub black_per_channel: [u32; 4],
    /// The saturation maximum.
    pub maximum: u32,
    /// The linearisation maximum of each of the four channels.
    pub linear_max: [i64; 4],
    /// The flash-used value, as decimal text with one fractional digit.
    pub flash_used: String,
    /// The code of the EXIF colour space.
    pub exif_color_space: i32,
}

/// The colour data of one image, under the names of its company, camera
/// model and image.
pub struct CameraColordata {
    pub company: String,
    pub model: String,
    pub image: String,
    pub colordata: ColorFields,
}

/// A record taken over as text, field by field.
pub struct CameraTbtl {
    pub records: Vec<String>,
}

/// The number of fields of a colour record.
pub const FIELD_COUNT: usize = 9;

/// The names of the nine columns, in order.
pub open spec fn header_names() -> Seq<Seq<char>> {
    seq![
        "COMPANY"@,
        "MODEL"@,
        "IMAGE"@,
        "BLCK"@,
        "CH_BLCK"@,
        "MAX"@,
        "CHLIN_MAX"@,
        "FL_USED"@,
        "CLR_SPACE"@,
    ]
}

/// Four unsigned values in decimal, joined by commas.
pub open spec fn quad_unsigned(a: Seq<u32>) -> Seq<char> {
    decimal_nat(a[0] as nat) + seq![','] + decimal_nat(a[1] as nat) + seq![','] + decimal_nat(
        a[2] as nat,
    ) + seq![','] + decimal_nat(a[3] as nat)
}

/// Four signed values in decimal, joined by commas.
pub open spec fn quad_signed(a: Seq<i64>) -> Seq<char> {
    decimal_int(a[0] as int) + seq![','] + decimal_int(a[1] as int) + seq![','] + decimal_int(
        a[2] as int,
    ) + seq![','] + decimal_int(a[3] as int)
}

/// The nine fields of a colour record: the three names, the black level,
/// the four channel black levels, the maximum, the four linearisation
/// maxima, the flash-used text and the colour space code.
pub open spec fn record_fields(
    company: Seq<char>,
    model: Seq<char>,
    image: Seq<char>,
    colordata: ColorFields,
) -> Seq<Seq<char>> {
    seq![
        company,
        model,
        image,
        decimal_nat(colordata.black as nat),
        quad_unsigned(colordata.black_per_channel@),
        decimal_nat(colordata.maximum as nat),
        quad_signed(colordata.linear_max@),
        colordata.flash_used@,
        decimal_int(colordata.exif_color_space as int),
    ]
}

fn column_names() -> (names: Vec<String>)
    ensures
        names.deep_view() == header_names(),
        names@.len() == FIELD_COUNT,
{
    let mut names: Vec<String> = Vec::new();
    names.push("COMPANY".to_owned());
    names.push("MODEL".to_owned());
    names.push("IMAGE".to_owned());
    names.push("BLCK".to_owned());
    names.push("CH_BLCK".to_owned());
    names.push("MAX".to_owned());
    names.push("CHLIN_MAX".to_owned());
    names.push("FL_USED".to_owned());
    names.push("CLR_SPACE".to_owned());
    assert(names.deep_view() =~= header_names());
    names
}

fn unsigned_text(n: u32) -> (s: String)
    ensures
        s@ == decimal_nat(n as nat),
{
    let mut s: String = String::new();
    push_decimal(&mut s, n as u64);
    s
}

fn signed_text(n: i32) -> (s: String)
    ensures
        s@ == decimal_int(n as int),
{
    let mut s: String = String::new();
    push_signed_decimal(&mut s, n as i64);
    s
}

fn quad_unsigned_text(a: &[u32; 4]) -> (s: String)
    ensures
        s@ == quad_unsigned(a@),
{
    proof {
        reveal_strlit(",");
    }
    let mut s: String = String::new();
    push_decimal(&mut s, a[0] as u64);
    s.append(",");
    push_decimal(&mut s, a[1] as u64);
    s.append(",");
    push_decimal(&mut s, a[2] as u64);
    s.append(",");
    push_decimal(&mut s, a[3] as u64);
    assert(","@ =~= seq![',']);
    s
}

fn quad_signed_text(a: &[i64; 4]) -> (s: String)
    ensures
        s@ == quad_signed(a@),
{
    proof {
        reveal_strlit(",");
    }
    let mut s: String = String::new();
    push_signed_decimal(&mut s, a[0]);
    s.append(",");
    push_signed_decimal(&mut s, a[1]);
    s.append(",");
    push_signed_decimal(&mut s, a[2]);
    s.append(",");
    push_signed_decimal(&mut s, a[3]);
    assert(","@ =~= seq![',']);
    s
}

impl CameraColordata {
    /// The nine fields of this record.
    pub open spec fn fields(&self) -> Seq<Seq<char>> {
        record_fields(self.company@, self.model@, self.image@, self.colordata)
    }

    /// The record as text, field by field.
    pub fn as_record(&self) -> (record: Vec<String>)
        ensures
            record.deep_view() == self.fields(),
            record@.len() == FIELD_COUNT,
    {
        let mut record: Vec<String> = Vec::new();
        record.push(self.company.clone());
        record.push(self.model.clone());
        record.push(self.image.clone());
        record.push(unsigned_text(self.colordata.black));
        record.push(quad_unsigned_text(&self.colordata.black_per_channel));
        record.push(unsigned_text(self.colordata.maximum));
        record.push(quad_signed_text(&self.colordata.linear_max));
        record.push(self.colordata.flash_used.clone());
        record.push(signed_text(self.colordata.exif_color_space));
        assert(record.deep_view() =~= self.fields());
        record
    }

    /// The names of the columns that `as_record` fills.
    pub fn headers() -> (names: Vec<String>)
        ensures
            names.deep_view() == header_names(),
            names@.len() == FIELD_COUNT,
    {
        column_names()
    }
}

impl CameraTbtl {
    /// The record as text, field by field: the fields as they were taken over.
    pub fn as_record(&self) -> (record: Vec<String>)
        ensures
            record.deep_view() == self.records.deep_view(),
    {
        let mut record: Vec<String> = Vec::new();
        let mut i: usize = 0;
        while i < self.records.len()
            invariant
                i <= self.records@.len(),
                record@.len() == i,
                forall|j: int| 0 <= j < i ==> (#[trigger] record@[j])@ == self.records@[j]@,
            decreases self.records@.len() - i,
        {
            record.push(self.records[i].clone());
            i += 1;
        }
        assert(record.deep_view() =~= self.records.deep_view());
        record
    }

    /// The names of the columns of a record that was taken over.
    pub fn headers() -> (names: Vec<String>)
        ensures
            names.deep_view() == header_names(),
            names@.len() == FIELD_COUNT,
    {
        column_names()
    }
}

} // verus!
