//! The table of colour spaces: the code that the decoder gives each one,
//! and its name.

use crate::delimited::{
    csv_text, plain_field, plain_record, plain_text, write_records,
};
use crate::sorting::{
    lemma_order_is_unique, stable_sort, stable_sort_of, strictly_in_order, Ranked,
};
use crate::text::{decimal_nat, push_decimal};
use vstd::prelude::*;
use vstd::seq_lib::*;
use vstd::string::*;

verus! {

/// One colour space: its name and the decoder's code for it.
pub struct ColorSpaceEntry {
    pub name: String,
    pub code: u32,
}

impl Ranked for ColorSpaceEntry {
    open spec fn rank_le(&self, other: &Self) -> bool {
        self.code <= other.code
    }

    fn may_precede(&self, other: &Self) -> (r: bool) {
        self.code <= other.code
    }

    proof fn lemma_rank_total(a: &Self, b: &Self) {
    }

    proof fn lemma_rank_transitive(a: &Self, b: &Self, c: &Self) {
    }
}

/// The number of colour spaces that are known.
pub const COLOR_SPACE_COUNT: usize = 14;

/// The names of the known colour spaces, in the order in which they are
/// listed.
pub open spec fn listed_names() -> Seq<Seq<char>> {
    seq![
        "ICC"@,
        "sRGB"@,
        "Unknown"@,
        "AdobeRGB"@,
        "NotFound"@,
        "CameraGamma"@,
        "ProPhotoRGB"@,
        "CameraLinear"@,
        "Uncalibrated"@,
        "WideGamutRGB"@,
        "MonochromeGamma"@,
        "CameraGammaUniWB"@,
        "MonochromeLinear"@,
        "CameraLinearUniWB"@,
    ]
}

/// The codes of the known colour spaces, in the same order.
pub open spec fn listed_codes() -> Seq<u32> {
    seq![5u32, 1u32, 255u32, 2u32, 0u32, 10u32, 4u32, 8u32, 6u32, 3u32, 12u32, 9u32, 11u32, 7u32]
}

/// The place in the list of the colour space that stands at each place of
/// the table.
pub open spec fn table_places() -> Seq<int> {
    seq![4int, 1int, 3int, 9int, 6int, 0int, 8int, 13int, 7int, 11int, 5int, 12int, 10int, 2int]
}

/// `list` holds the known colour spaces in the order in which they are
/// listed.
pub open spec fn lists_known_spaces(list: Seq<ColorSpaceEntry>) -> bool {
    &&& list.len() == COLOR_SPACE_COUNT
    &&& forall|i: int|
        0 <= i < COLOR_SPACE_COUNT ==> (#[trigger] list[i]).name@ == listed_names()[i] && list[i].code
            == listed_codes()[i]
}

/// `table` holds the known colour spaces by ascending code: `NotFound` with
/// 0 first, `Unknown` with 255 last.
pub open spec fn is_color_space_table(table: Seq<ColorSpaceEntry>) -> bool {
    &&& table.len() == COLOR_SPACE_COUNT
    &&& forall|i: int|
        0 <= i < COLOR_SPACE_COUNT ==> (#[trigger] table[i]).name@ == listed_names()[table_places()[i]]
            && table[i].code == listed_codes()[table_places()[i]]
    &&& strictly_in_order(table)
}

/// The two text fields of each entry: the code in decimal, then the name.
pub open spec fn color_space_rows(table: Seq<ColorSpaceEntry>) -> Seq<Seq<Seq<char>>> {
    Seq::new(table.len(), |i: int| seq![decimal_nat(table[i].code as nat), table[i].name@])
}

/// The constants `LibRaw_colorspace_LIBRAW_COLORSPACE_*` of `libraw_sys`, in
/// the order ICC, sRGB, Unknown, AdobeRGB, NotFound, CameraGamma,
/// ProPhotoRGB, CameraLinear, Uncalibrated, WideGamutRGB, MonochromeGamma,
/// CameraGammaUniWB, MonochromeLinear, CameraLinearUniWB. The contract
/// claims the value that the bindings give each of them.
#[verifier::external_body]
fn libraw_color_space_codes() -> (codes: [u32; 14])
    ensures
        codes@ == listed_codes(),
{
    [
        libraw_sys::LibRaw_colorspace_LIBRAW_COLORSPACE_ICC, libraw_sys::LibRaw_colorspace_LIBRAW_COLORSPACE_sRGB,
        libraw_sys::LibRaw_colorspace_LIBRAW_COLORSPACE_Unknown, libraw_sys::LibRaw_colorspace_LIBRAW_COLORSPACE_AdobeRGB,
        libraw_sys::LibRaw_colorspace_LIBRAW_COLORSPACE_NotFound, libraw_sys::LibRaw_colorspace_LIBRAW_COLORSPACE_CameraGamma,
        libraw_sys::LibRaw_colorspace_LIBRAW_COLORSPACE_ProPhotoRGB, libraw_sys::LibRaw_colorspace_LIBRAW_COLORSPACE_CameraLinear,
        libraw_sys::LibRaw_colorspace_LIBRAW_COLORSPACE_Uncalibrated, libraw_sys::LibRaw_colorspace_LIBRAW_COLORSPACE_WideGamutRGB,
        libraw_sys::LibRaw_colorspace_LIBRAW_COLORSPACE_MonochromeGamma, libraw_sys::LibRaw_colorspace_LIBRAW_COLORSPACE_CameraGammaUniWB,
        libraw_sys::LibRaw_colorspace_LIBRAW_COLORSPACE_MonochromeLinear, libraw_sys::LibRaw_colorspace_LIBRAW_COLORSPACE_CameraLinearUniWB,
    ]
}

fn entry(name: &str, code: u32) -> (e: ColorSpaceEntry)
    ensures
        e.name@ == name@,
        e.code == code,
{
    ColorSpaceEntry { name: name.to_owned(), code }
}

/// The known colour spaces, as they are listed.
pub fn known_color_spaces() -> (list: Vec<ColorSpaceEntry>)
    ensures
        lists_known_spaces(list@),
{
    let codes = libraw_color_space_codes();
    let mut list: Vec<ColorSpaceEntry> = Vec::new();
    list.push(entry("ICC", codes[0]));
    list.push(entry("sRGB", codes[1]));
    list.push(entry("Unknown", codes[2]));
    list.push(entry("AdobeRGB", codes[3]));
    list.push(entry("NotFound", codes[4]));
    list.push(entry("CameraGamma", codes[5]));
    list.push(entry("ProPhotoRGB", codes[6]));
    list.push(entry("CameraLinear", codes[7]));
    list.push(entry("Uncalibrated", codes[8]));
    list.push(entry("WideGamutRGB", codes[9]));
    list.push(entry("MonochromeGamma", codes[10]));
    list.push(entry("CameraGammaUniWB", codes[11]));
    list.push(entry("MonochromeLinear", codes[12]));
    list.push(entry("CameraLinearUniWB", codes[13]));
    list
}

/// The known colour spaces in the order of the table.
pub open spec fn arranged(known: Seq<ColorSpaceEntry>) -> Seq<ColorSpaceEntry> {
    Seq::new(COLOR_SPACE_COUNT as nat, |i: int| known[table_places()[i]])
}

proof fn lemma_arranged_holds_the_same(known: Seq<ColorSpaceEntry>)
    requires
        known.len() == COLOR_SPACE_COUNT,
    ensures
        arranged(known).to_multiset() == known.to_multiset(),
{
    broadcast use vstd::multiset::group_multiset_axioms;
    broadcast use to_multiset_build;

    let e = Seq::<ColorSpaceEntry>::empty();
    e.to_multiset_ensures();
    let k = e.push(known[0]).push(known[1]).push(known[2]).push(known[3]).push(known[4]).push(
        known[5],
    ).push(known[6]).push(known[7]).push(known[8]).push(known[9]).push(known[10]).push(
        known[11],
    ).push(known[12]).push(known[13]);
    let a = e.push(known[4]).push(known[1]).push(known[3]).push(known[9]).push(known[6]).push(
        known[0],
    ).push(known[8]).push(known[13]).push(known[7]).push(known[11]).push(known[5]).push(
        known[12],
    ).push(known[10]).push(known[2]);
    assert(k =~= known);
    assert(a =~= arranged(known));
    assert(a.to_multiset() =~= k.to_multiset());
}

/// Whatever the order in which the known colour spaces are listed, sorting
/// them gives the same table: fourteen entries by ascending code.
pub proof fn lemma_table_whatever_the_order(
    known: Seq<ColorSpaceEntry>,
    listed: Seq<ColorSpaceEntry>,
    table: Seq<ColorSpaceEntry>,
)
    requires
        lists_known_spaces(known),
        listed.to_multiset() == known.to_multiset(),
        stable_sort_of(table, listed),
    ensures
        table == arranged(known),
        is_color_space_table(table),
{
    let a = arranged(known);
    lemma_arranged_holds_the_same(known);
    assert(strictly_in_order(a)) by {
        assert forall|i: int, j: int| #![trigger a[i], a[j]] 0 <= i < j < a.len() implies a[i].rank_le(
            &a[j],
        ) && !a[j].rank_le(&a[i]) by {
            assert(a[i] == known[table_places()[i]]);
            assert(a[j] == known[table_places()[j]]);
            assert(a[i].code == listed_codes()[table_places()[i]]);
            assert(a[j].code == listed_codes()[table_places()[j]]);
        }
    }
    lemma_order_is_unique(table, a);
}

/// The table of colour spaces: the known ones, sorted by ascending code.
pub fn color_space_table() -> (table: Vec<ColorSpaceEntry>)
    ensures
        is_color_space_table(table@),
{
    let list = known_color_spaces();
    let table = stable_sort(list);
    proof {
        lemma_table_whatever_the_order(list@, list@, table@);
    }
    table
}

/// Every name of `table` is written to delimited text as it is.
pub open spec fn plainly_named(table: Seq<ColorSpaceEntry>) -> bool {
    forall|i: int| 0 <= i < table.len() ==> plain_field((#[trigger] table[i]).name@)
}

proof fn lemma_decimal_is_plain(n: nat)
    ensures
        plain_field(decimal_nat(n)),
        decimal_nat(n).len() > 0,
    decreases n,
{
    if n >= 10 {
        lemma_decimal_is_plain(n / 10);
    }
}

/// The names of the table of colour spaces are written to delimited text
/// as they are.
pub proof fn lemma_table_is_plainly_named(table: Seq<ColorSpaceEntry>)
    requires
        is_color_space_table(table),
    ensures
        plainly_named(table),
{
    reveal_strlit("ICC");
    reveal_strlit("sRGB");
    reveal_strlit("Unknown");
    reveal_strlit("AdobeRGB");
    reveal_strlit("NotFound");
    reveal_strlit("CameraGamma");
    reveal_strlit("ProPhotoRGB");
    reveal_strlit("CameraLinear");
    reveal_strlit("Uncalibrated");
    reveal_strlit("WideGamutRGB");
    reveal_strlit("MonochromeGamma");
    reveal_strlit("CameraGammaUniWB");
    reveal_strlit("MonochromeLinear");
    reveal_strlit("CameraLinearUniWB");
    assert forall|k: int| 0 <= k < 14 implies plain_field(#[trigger] listed_names()[k]) by {
        assert(plain_field("ICC"@));
        assert(plain_field("sRGB"@));
        assert(plain_field("Unknown"@));
        assert(plain_field("AdobeRGB"@));
        assert(plain_field("NotFound"@));
        assert(plain_field("CameraGamma"@));
        assert(plain_field("ProPhotoRGB"@));
        assert(plain_field("CameraLinear"@));
        assert(plain_field("Uncalibrated"@));
        assert(plain_field("WideGamutRGB"@));
        assert(plain_field("MonochromeGamma"@));
        assert(plain_field("CameraGammaUniWB"@));
        assert(plain_field("MonochromeLinear"@));
        assert(plain_field("CameraLinearUniWB"@));
    }
    assert forall|i: int| 0 <= i < table.len() implies plain_field((#[trigger] table[i]).name@) by {
        assert(table[i].name@ == listed_names()[table_places()[i]]);
    }
}

/// The table as delimited text, without a header row: for each colour
/// space one record of its code and its name. Where the names are plain,
/// as those of the known colour spaces are, that is one line for each:
/// the code in decimal, a comma, the name.
pub fn color_space_csv(table: &Vec<ColorSpaceEntry>) -> (bytes: Vec<u8>)
    ensures
        bytes@ == csv_text(color_space_rows(table@)),
        plainly_named(table@) ==> bytes@ == plain_text(color_space_rows(table@)),
{
    let ghost wanted = color_space_rows(table@);
    let mut rows: Vec<Vec<String>> = Vec::new();
    let mut i: usize = 0;
    while i < table.len()
        invariant
            i <= table@.len(),
            wanted == color_space_rows(table@),
            rows@.len() == i,
            forall|k: int| 0 <= k < i ==> (#[trigger] rows@[k]).deep_view() == wanted[k],
        decreases table@.len() - i,
    {
        let mut code: String = String::new();
        push_decimal(&mut code, table[i].code as u64);
        let mut record: Vec<String> = Vec::new();
        record.push(code);
        record.push(table[i].name.clone());
        proof {
            assert(record.deep_view() =~= wanted[i as int]);
        }
        rows.push(record);
        i += 1;
    }
    proof {
        assert(rows.deep_view() =~= wanted);
        if plainly_named(table@) {
            assert forall|k: int| 0 <= k < wanted.len() implies plain_record(#[trigger] wanted[k]) by {
                lemma_decimal_is_plain(table@[k].code as nat);
                assert(plain_field(table@[k].name@));
            }
        }
    }
    write_records(&rows)
}

} // verus!
