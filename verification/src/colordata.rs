//! The colour data of one company: from what became of each image, the
//! records, their delimited text and the notes on the images passed over.

use crate::delimited::{
    ascii_bytes, csv_data_records, csv_text, decode_records, plain_field, plain_line, plain_record,
    plain_rows, write_records,
};
use crate::reading::{lemma_table_reads_back, names_column, survives_padding, table_read};
use crate::record::{header_names, record_fields, CameraColordata, CameraTbtl, ColorFields};
use crate::table::{rectangular, render_table, table_text, TableError};
use vstd::prelude::*;
use vstd::seq_lib::*;
use vstd::string::*;

verus! {

/// What became of one image: its colour data, or the text of the error that
/// reading or decoding it gave.
pub enum Decoded {
    Fields(ColorFields),
    ReadFailed(String),
    DecodeFailed(String),
}

/// One image by name, and what became of it.
pub struct ImageOutcome {
    pub image: String,
    pub outcome: Decoded,
}

/// The images of one camera model, in the order of the catalogue.
pub struct ModelOutcomes {
    pub model: String,
    pub images: Vec<ImageOutcome>,
}

/// What one company adds to a run.
pub struct CompanyBatch {
    /// The record of each decoded image, in the order of the catalogue.
    pub records: Vec<CameraColordata>,
    /// The same records as delimited text.
    pub csv: Vec<u8>,
    /// One note for each image that was passed over, in the same order.
    pub diagnostics: Vec<String>,
}

/// A colour record as plain values.
pub ghost struct ColorRecord {
    pub company: Seq<char>,
    pub model: Seq<char>,
    pub image: Seq<char>,
    pub colordata: ColorFields,
}

impl View for CameraColordata {
    type V = ColorRecord;

    open spec fn view(&self) -> ColorRecord {
        ColorRecord {
            company: self.company@,
            model: self.model@,
            image: self.image@,
            colordata: self.colordata,
        }
    }
}

/// The views of a sequence of records.
pub open spec fn record_views(records: Seq<CameraColordata>) -> Seq<ColorRecord> {
    Seq::new(records.len(), |i: int| records[i]@)
}

/// The nine text fields of each record.
pub open spec fn record_rows(records: Seq<ColorRecord>) -> Seq<Seq<Seq<char>>> {
    Seq::new(
        records.len(),
        |i: int| record_fields(records[i].company, records[i].model, records[i].image, records[i].colordata),
    )
}

/// The record of an image that was decoded; none of one that was not.
pub open spec fn record_of(company: Seq<char>, model: Seq<char>) -> spec_fn(ImageOutcome) -> Option<
    ColorRecord,
> {
    |o: ImageOutcome|
        match o.outcome {
            Decoded::Fields(colordata) => Some(
                ColorRecord { company, model, image: o.image@, colordata },
            ),
            _ => None,
        }
}

/// The note on an image that could not be read or decoded: what failed, the
/// image, its model and company, and on a line of its own the error.
pub open spec fn skip_note(
    verb: Seq<char>,
    image: Seq<char>,
    model: Seq<char>,
    company: Seq<char>,
    error: Seq<char>,
) -> Seq<char> {
    "Failed to "@ + verb + " image '"@ + image + "'. Model "@ + model + " from "@ + company
        + ".\n\t"@ + error
}

/// The note on an image that was passed over; none on one that was decoded.
pub open spec fn note_of(company: Seq<char>, model: Seq<char>) -> spec_fn(ImageOutcome) -> Option<
    Seq<char>,
> {
    |o: ImageOutcome|
        match o.outcome {
            Decoded::Fields(_) => None,
            Decoded::ReadFailed(error) => Some(skip_note("read"@, o.image@, model, company, error@)),
            Decoded::DecodeFailed(error) => Some(
                skip_note("decode"@, o.image@, model, company, error@),
            ),
        }
}

/// The records of one model: one for each decoded image, in order.
pub open spec fn model_records(company: Seq<char>) -> spec_fn(ModelOutcomes) -> Seq<ColorRecord> {
    |m: ModelOutcomes| m.images@.filter_map(record_of(company, m.model@))
}

/// The notes of one model: one for each image passed over, in order.
pub open spec fn model_notes(company: Seq<char>) -> spec_fn(ModelOutcomes) -> Seq<Seq<char>> {
    |m: ModelOutcomes| m.images@.filter_map(note_of(company, m.model@))
}

/// The records of one company: those of its models, one model after the
/// other.
pub open spec fn company_records(company: Seq<char>, models: Seq<ModelOutcomes>) -> Seq<
    ColorRecord,
> {
    models.flat_map(model_records(company))
}

/// The notes of one company: those of its models, one model after the other.
pub open spec fn company_notes(company: Seq<char>, models: Seq<ModelOutcomes>) -> Seq<Seq<char>> {
    models.flat_map(model_notes(company))
}

fn copy_fields(fields: &ColorFields) -> (copy: ColorFields)
    ensures
        copy == *fields,
{
    ColorFields {
        black: fields.black,
        black_per_channel: fields.black_per_channel,
        maximum: fields.maximum,
        linear_max: fields.linear_max,
        flash_used: fields.flash_used.clone(),
        exif_color_space: fields.exif_color_space,
    }
}

fn write_note(verb: &str, image: &str, model: &str, company: &str, error: &str) -> (note: String)
    ensures
        note@ == skip_note(verb@, image@, model@, company@, error@),
{
    let mut note: String = "Failed to ".to_owned();
    note.append(verb);
    note.append(" image '");
    note.append(image);
    note.append("'. Model ");
    note.append(model);
    note.append(" from ");
    note.append(company);
    note.append(".\n\t");
    note.append(error);
    note
}

/// Works through the images of one company. Every image that was decoded
/// gives a record; every other one gives a note and nothing else, whatever
/// stands before or after it.
pub fn process_company(company: &str, models: &Vec<ModelOutcomes>) -> (batch: CompanyBatch)
    ensures
        record_views(batch.records@) == company_records(company@, models@),
        batch.csv@ == csv_text(record_rows(company_records(company@, models@))),
        batch.diagnostics.deep_view() == company_notes(company@, models@),
{
    let ghost name = company@;
    let ghost per_model = model_records(name);
    let ghost notes_per_model = model_notes(name);
    let mut records: Vec<CameraColordata> = Vec::new();
    let mut rows: Vec<Vec<String>> = Vec::new();
    let mut diagnostics: Vec<String> = Vec::new();
    let mut m: usize = 0;
    proof {
        assert(models@.take(0) =~= Seq::<ModelOutcomes>::empty());
        assert(models@.take(0).flat_map(per_model) =~= Seq::<ColorRecord>::empty());
        assert(models@.take(0).flat_map(notes_per_model) =~= Seq::<Seq<char>>::empty());
        assert(record_views(records@) =~= Seq::<ColorRecord>::empty());
        assert(rows.deep_view() =~= record_rows(record_views(records@)));
        assert(diagnostics.deep_view() =~= Seq::<Seq<char>>::empty());
    }
    while m < models.len()
        invariant
            m <= models@.len(),
            name == company@,
            per_model == model_records(name),
            notes_per_model == model_notes(name),
            record_views(records@) == models@.take(m as int).flat_map(per_model),
            rows.deep_view() == record_rows(record_views(records@)),
            diagnostics.deep_view() == models@.take(m as int).flat_map(notes_per_model),
        decreases models@.len() - m,
    {
        let model = &models[m];
        let ghost done = record_views(records@);
        let ghost noted = diagnostics.deep_view();
        let ghost pick = record_of(name, model.model@);
        let ghost note = note_of(name, model.model@);
        let mut i: usize = 0;
        proof {
            assert(model.images@.take(0) =~= Seq::<ImageOutcome>::empty());
            assert(record_views(records@) =~= done + model.images@.take(0).filter_map(pick));
            assert(diagnostics.deep_view() =~= noted + model.images@.take(0).filter_map(note));
        }
        while i < model.images.len()
            invariant
                i <= model.images@.len(),
                name == company@,
                pick == record_of(name, model.model@),
                note == note_of(name, model.model@),
                    record_views(records@) == done + model.images@.take(i as int).filter_map(pick),
                rows.deep_view() == record_rows(record_views(records@)),
                diagnostics.deep_view() == noted + model.images@.take(i as int).filter_map(note),
            decreases model.images@.len() - i,
        {
            let entry = &model.images[i];
            let ghost views_before = record_views(records@);
            let ghost notes_before = diagnostics.deep_view();
            proof {
                model.images@.lemma_filter_map_take_succ(pick, i as int);
                model.images@.lemma_filter_map_take_succ(note, i as int);
            }
            match &entry.outcome {
                Decoded::Fields(fields) => {
                    let record = CameraColordata {
                        company: company.to_owned(),
                        model: model.model.clone(),
                        image: entry.image.clone(),
                        colordata: copy_fields(fields),
                    };
                    let row = record.as_record();
                    proof {
                        let rows_before = record_rows(views_before);
                        assert(record.fields() == record_fields(
                            record@.company,
                            record@.model,
                            record@.image,
                            record@.colordata,
                        ));
                        assert(record_views(records@.push(record)) =~= views_before.push(record@));
                        assert(record_rows(views_before.push(record@)) =~= rows_before.push(
                            record.fields(),
                        ));
                        assert(pick(*entry) == Some(record@));
                    }
                    let ghost row_before = rows.deep_view();
                    let ghost fields = row.deep_view();
                    rows.push(row);
                    proof {
                        assert(rows.deep_view() =~= row_before.push(fields));
                    }
                    records.push(record);
                },
                Decoded::ReadFailed(error) => {
                    let text = write_note(
                        "read",
                        entry.image.as_str(),
                        model.model.as_str(),
                        company,
                        error.as_str(),
                    );
                    let ghost written = text@;
                    diagnostics.push(text);
                    proof {
                        assert(note(*entry) == Some(written));
                        assert(diagnostics.deep_view() =~= notes_before.push(written));
                    }
                },
                Decoded::DecodeFailed(error) => {
                    let text = write_note(
                        "decode",
                        entry.image.as_str(),
                        model.model.as_str(),
                        company,
                        error.as_str(),
                    );
                    let ghost written = text@;
                    diagnostics.push(text);
                    proof {
                        assert(note(*entry) == Some(written));
                        assert(diagnostics.deep_view() =~= notes_before.push(written));
                    }
                },
            }
            i += 1;
        }
        proof {
            assert(model.images@.take(i as int) =~= model.images@);
            models@.lemma_flat_map_take_append(per_model, m as int);
            models@.lemma_flat_map_take_append(notes_per_model, m as int);
            assert(per_model(models@[m as int]) == model.images@.filter_map(pick));
            assert(notes_per_model(models@[m as int]) == model.images@.filter_map(note));
        }
        m += 1;
    }
    proof {
        assert(models@.take(m as int) =~= models@);
    }
    let csv = write_records(&rows);
    CompanyBatch { records, csv, diagnostics }
}

/// The header row of delimited text, as characters.
pub open spec fn header_row() -> Seq<char> {
    "COMPANY,MODEL,IMAGE,BLCK,CH_BLCK,MAX,CHLIN_MAX,FL_USED,CLR_SPACE\n"@
}

proof fn lemma_header_row_is_plain()
    ensures
        plain_record(header_names()),
        plain_line(header_names()) == ascii_bytes(header_row()),
{
    reveal_strlit("COMPANY");
    reveal_strlit("MODEL");
    reveal_strlit("IMAGE");
    reveal_strlit("BLCK");
    reveal_strlit("CH_BLCK");
    reveal_strlit("MAX");
    reveal_strlit("CHLIN_MAX");
    reveal_strlit("FL_USED");
    reveal_strlit("CLR_SPACE");
    reveal_strlit("COMPANY,MODEL,IMAGE,BLCK,CH_BLCK,MAX,CHLIN_MAX,FL_USED,CLR_SPACE\n");
    let names = header_names();
    assert(plain_field("COMPANY"@));
    assert(plain_field("MODEL"@));
    assert(plain_field("IMAGE"@));
    assert(plain_field("BLCK"@));
    assert(plain_field("CH_BLCK"@));
    assert(plain_field("MAX"@));
    assert(plain_field("CHLIN_MAX"@));
    assert(plain_field("FL_USED"@));
    assert(plain_field("CLR_SPACE"@));
    assert(plain_record(names));
    let n1 = names.drop_first();
    let n2 = n1.drop_first();
    let n3 = n2.drop_first();
    let n4 = n3.drop_first();
    let n5 = n4.drop_first();
    let n6 = n5.drop_first();
    let n7 = n6.drop_first();
    let n8 = n7.drop_first();
    assert(plain_line(n8) == ascii_bytes("CLR_SPACE"@) + seq![10u8]);
    assert(plain_line(n7) == ascii_bytes("FL_USED"@) + seq![44u8] + plain_line(n8));
    assert(plain_line(n6) == ascii_bytes("CHLIN_MAX"@) + seq![44u8] + plain_line(n7));
    assert(plain_line(n5) == ascii_bytes("MAX"@) + seq![44u8] + plain_line(n6));
    assert(plain_line(n4) == ascii_bytes("CH_BLCK"@) + seq![44u8] + plain_line(n5));
    assert(plain_line(n3) == ascii_bytes("BLCK"@) + seq![44u8] + plain_line(n4));
    assert(plain_line(n2) == ascii_bytes("IMAGE"@) + seq![44u8] + plain_line(n3));
    assert(plain_line(n1) == ascii_bytes("MODEL"@) + seq![44u8] + plain_line(n2));
    assert(plain_line(names) == ascii_bytes("COMPANY"@) + seq![44u8] + plain_line(n1));
    assert(plain_line(names) =~= ascii_bytes(header_row()));
}

/// The header row of the delimited text of a run: the nine column names
/// between commas, and a line feed.
pub fn colordata_header() -> (bytes: Vec<u8>)
    ensures
        bytes@ == csv_text(seq![header_names()]),
        bytes@ == ascii_bytes(header_row()),
{
    let mut rows: Vec<Vec<String>> = Vec::new();
    rows.push(CameraColordata::headers());
    proof {
        assert(rows.deep_view() =~= seq![header_names()]);
        lemma_header_row_is_plain();
        assert(plain_rows(rows.deep_view()));
        let line = |fields: Seq<Seq<char>>| plain_line(fields);
        seq![header_names()].lemma_flat_map_singleton(line);
    }
    write_records(&rows)
}

/// The fixed-width text of the records of a run, under the nine column
/// names.
pub fn colordata_table(records: &Vec<CameraColordata>) -> (text: String)
    ensures
        text@ == table_text(header_names(), record_rows(record_views(records@))),
{
    let ghost wanted = record_rows(record_views(records@));
    let names = CameraColordata::headers();
    let mut rows: Vec<Vec<String>> = Vec::new();
    let mut i: usize = 0;
    while i < records.len()
        invariant
            i <= records@.len(),
            wanted == record_rows(record_views(records@)),
            rows@.len() == i,
            forall|k: int| 0 <= k < i ==> (#[trigger] rows@[k]).deep_view() == wanted[k],
            forall|k: int| 0 <= k < i ==> (#[trigger] rows@[k])@.len() == names@.len(),
            names@.len() == 9,
        decreases records@.len() - i,
    {
        let row = records[i].as_record();
        rows.push(row);
        i += 1;
    }
    proof {
        assert(rows.deep_view() =~= wanted);
    }
    match render_table(&names, &rows) {
        Ok(text) => text,
        Err(TableError::RaggedRow { row }) => {
            proof {
                assert(rows@[row as int]@.len() == names@.len());
            }
            vstd::pervasive::unreached()
        },
    }
}

/// Leaving out an image that was not decoded changes no record: the run
/// gives the records of all the other images, as it would without it.
pub proof fn lemma_failure_is_isolated(
    company: Seq<char>,
    models: Seq<ModelOutcomes>,
    without: Seq<ModelOutcomes>,
    m: int,
    i: int,
)
    requires
        0 <= m < models.len(),
        0 <= i < models[m].images@.len(),
        !(models[m].images@[i].outcome is Fields),
        without.len() == models.len(),
        forall|k: int| 0 <= k < models.len() && k != m ==> without[k] == models[k],
        without[m].model@ == models[m].model@,
        without[m].images@ == models[m].images@.remove(i),
    ensures
        company_records(company, without) == company_records(company, models),
{
    let per_model = model_records(company);
    let pick = record_of(company, models[m].model@);
    lemma_filter_map_skips(models[m].images@, pick, i);
    assert(per_model(without[m]) == per_model(models[m]));
    assert(without.map_values(per_model) =~= models.map_values(per_model));
}

proof fn lemma_filter_map_skips<A, B>(s: Seq<A>, f: spec_fn(A) -> Option<B>, i: int)
    requires
        0 <= i < s.len(),
        f(s[i]) is None,
    ensures
        s.remove(i).filter_map(f) == s.filter_map(f),
    decreases s.len(),
{
    if i == s.len() - 1 {
        assert(s.remove(i) =~= s.drop_last());
    } else {
        lemma_filter_map_skips(s.drop_last(), f, i);
        assert(s.remove(i).drop_last() =~= s.drop_last().remove(i));
        assert(s.remove(i).last() == s.last());
    }
}

/// Why delimited text cannot be turned into fixed-width text.
pub enum ConvertError {
    /// The delimited text cannot be read; this is the reader's error.
    Csv(csv::Error),
    /// The records cannot be laid out.
    Table(TableError),
}

/// The fixed-width text of records that were taken over as text, under the
/// nine column names.
pub fn table_of_records(records: &Vec<CameraTbtl>) -> (out: Result<String, TableError>)
    ensures
        match out {
            Ok(text) => rectangular(header_names(), taken_rows(records@)) && text@ == table_text(
                header_names(),
                taken_rows(records@),
            ),
            Err(TableError::RaggedRow { row }) => row < records@.len()
                && records@[row as int].records@.len() != 9 && forall|i: int|
                0 <= i < row ==> (#[trigger] records@[i]).records@.len() == 9,
        },
{
    let ghost wanted = taken_rows(records@);
    let names = CameraTbtl::headers();
    let mut rows: Vec<Vec<String>> = Vec::new();
    let mut i: usize = 0;
    while i < records.len()
        invariant
            i <= records@.len(),
            wanted == taken_rows(records@),
            rows@.len() == i,
            forall|k: int| 0 <= k < i ==> (#[trigger] rows@[k]).deep_view() == wanted[k],
            forall|k: int| 0 <= k < i ==> (#[trigger] rows@[k])@.len() == records@[k].records@.len(),
        decreases records@.len() - i,
    {
        let row = records[i].as_record();
        proof {
            assert(row.deep_view().len() == row@.len());
            assert(records@[i as int].records.deep_view().len() == records@[i as int].records@.len());
        }
        rows.push(row);
        i += 1;
    }
    proof {
        assert(rows.deep_view() =~= wanted);
        assert(names@.len() == 9);
    }
    let out = render_table(&names, &rows);
    proof {
        match out {
            Ok(_) => {},
            Err(TableError::RaggedRow { row }) => {
                assert(rows@[row as int]@.len() == records@[row as int].records@.len());
                assert forall|i: int| 0 <= i < row implies (#[trigger] records@[i]).records@.len()
                    == 9 by {
                    assert(rows@[i]@.len() == records@[i].records@.len());
                }
            },
        }
    }
    out
}

/// The fields of records that were taken over as text.
pub open spec fn taken_rows(records: Seq<CameraTbtl>) -> Seq<Seq<Seq<char>>> {
    Seq::new(records.len(), |i: int| records[i].records.deep_view())
}

/// Turns the delimited text of a run into fixed-width text: every record
/// after the header row, field by field as the text has it, under the nine
/// column names.
pub fn csv_to_table(bytes: &Vec<u8>) -> (out: Result<String, ConvertError>)
    ensures
        match out {
            Ok(text) => csv_data_records(bytes@) matches Some(rows) && rectangular(
                header_names(),
                rows,
            ) && text@ == table_text(header_names(), rows),
            Err(ConvertError::Csv(_)) => csv_data_records(bytes@) is None,
            Err(ConvertError::Table(TableError::RaggedRow { row })) => csv_data_records(bytes@)
                matches Some(rows) && row < rows.len() && rows[row as int].len() != 9
                && forall|i: int| 0 <= i < row ==> (#[trigger] rows[i]).len() == 9,
        },
{
    match decode_records(bytes) {
        Err(error) => Err(ConvertError::Csv(error)),
        Ok(rows) => {
            let ghost read = rows.deep_view();
            let mut records: Vec<CameraTbtl> = Vec::new();
            let mut rows = rows;
            let ghost all = rows@;
            while rows.len() > 0
                invariant
                    rows@.len() <= all.len(),
                    rows@ == all.take(rows@.len() as int),
                    records@.len() + rows@.len() == all.len(),
                    forall|k: int|
                        0 <= k < records@.len() ==> (#[trigger] records@[k]).records == all[all.len()
                            - 1 - k],
                decreases rows@.len(),
            {
                let fields = rows.pop().unwrap();
                records.push(CameraTbtl { records: fields });
            }
            let mut ordered: Vec<CameraTbtl> = Vec::new();
            while records.len() > 0
                invariant
                    records@.len() + ordered@.len() == all.len(),
                    forall|k: int|
                        0 <= k < records@.len() ==> (#[trigger] records@[k]).records == all[all.len()
                            - 1 - k],
                    forall|k: int| 0 <= k < ordered@.len() ==> (#[trigger] ordered@[k]).records == all[k],
                decreases records@.len(),
            {
                let record = records.pop().unwrap();
                ordered.push(record);
            }
            proof {
                assert(taken_rows(ordered@) =~= read) by {
                    assert forall|k: int| 0 <= k < read.len() implies taken_rows(ordered@)[k]
                        == read[k] by {
                        assert(ordered@[k].records == all[k]);
                    }
                }
                assert forall|k: int| 0 <= k < read.len() implies (#[trigger] read[k]).len()
                    == ordered@[k].records@.len() by {
                    assert(ordered@[k].records == all[k]);
                    assert(read[k] == all[k].deep_view());
                }
            }
            match table_of_records(&ordered) {
                Ok(text) => Ok(text),
                Err(error) => Err(ConvertError::Table(error)),
            }
        },
    }
}

/// Each of the nine column names can name a column of fixed-width text.
pub proof fn lemma_header_names_name_columns()
    ensures
        header_names().len() == 9,
        forall|j: int| 0 <= j < 9 ==> names_column(#[trigger] header_names()[j]),
{
    reveal_strlit("COMPANY");
    reveal_strlit("MODEL");
    reveal_strlit("IMAGE");
    reveal_strlit("BLCK");
    reveal_strlit("CH_BLCK");
    reveal_strlit("MAX");
    reveal_strlit("CHLIN_MAX");
    reveal_strlit("FL_USED");
    reveal_strlit("CLR_SPACE");
    assert(names_column("COMPANY"@));
    assert(names_column("MODEL"@));
    assert(names_column("IMAGE"@));
    assert(names_column("BLCK"@));
    assert(names_column("CH_BLCK"@));
    assert(names_column("MAX"@));
    assert(names_column("CHLIN_MAX"@));
    assert(names_column("FL_USED"@));
    assert(names_column("CLR_SPACE"@));
}

/// Records that are turned into fixed-width text and read back come out
/// field by field as they went in, where every record has nine fields and
/// no field holds a line feed or ends in a space.
pub proof fn lemma_conversion_reads_back(rows: Seq<Seq<Seq<char>>>)
    requires
        rectangular(header_names(), rows),
        forall|i: int, j: int|
            0 <= i < rows.len() && 0 <= j < rows[i].len() ==> survives_padding(#[trigger] rows[i][j]),
    ensures
        table_read(table_text(header_names(), rows)) == Some((header_names(), rows)),
{
    lemma_header_names_name_columns();
    lemma_table_reads_back(header_names(), rows);
}

} // verus!
