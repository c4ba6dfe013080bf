use pixls_colordata::colordata::{
    colordata_header, colordata_table, csv_to_table, process_company, ConvertError, Decoded,
    ImageOutcome, ModelOutcomes,
};
use pixls_colordata::database::{Company, DirEntry, EntryKind, Model, PixlsDatabase};
use pixls_colordata::record::{CameraColordata, ColorFields};
use pixls_colordata::table::TableError;

fn fields(black: u32) -> ColorFields {
    ColorFields {
        black,
        black_per_channel: [black, black, black, black],
        maximum: 16383,
        linear_max: [16000, 16000, 16000, 16000],
        flash_used: "0.0".to_string(),
        exif_color_space: 1,
    }
}

fn decoded(image: &str, black: u32) -> ImageOutcome {
    ImageOutcome { image: image.to_string(), outcome: Decoded::Fields(fields(black)) }
}

fn undecodable(image: &str, error: &str) -> ImageOutcome {
    ImageOutcome { image: image.to_string(), outcome: Decoded::DecodeFailed(error.to_string()) }
}

fn unreadable(image: &str, error: &str) -> ImageOutcome {
    ImageOutcome { image: image.to_string(), outcome: Decoded::ReadFailed(error.to_string()) }
}

fn model(name: &str, images: Vec<ImageOutcome>) -> ModelOutcomes {
    ModelOutcomes { model: name.to_string(), images }
}

fn images_of(records: &[CameraColordata]) -> Vec<String> {
    records.iter().map(|r| format!("{}/{}/{}", r.company, r.model, r.image)).collect()
}

const HEADER: &str = "COMPANY,MODEL,IMAGE,BLCK,CH_BLCK,MAX,CHLIN_MAX,FL_USED,CLR_SPACE\n";

#[test]
fn canon_scenario_one_decoded_one_failed() {
    let root = vec![DirEntry {
        path: "/a/Canon".to_string(),
        stem: "Canon".to_string(),
        kind: EntryKind::Directory,
        entries: vec![DirEntry {
            path: "/a/Canon/EOS100".to_string(),
            stem: "EOS100".to_string(),
            kind: EntryKind::Directory,
            entries: vec![
                DirEntry {
                    path: "/a/Canon/EOS100/img1.raw".to_string(),
                    stem: "img1".to_string(),
                    kind: EntryKind::File,
                    entries: vec![],
                },
                DirEntry {
                    path: "/a/Canon/EOS100/img2.raw".to_string(),
                    stem: "img2".to_string(),
                    kind: EntryKind::File,
                    entries: vec![],
                },
            ],
        }],
    }];
    let db = PixlsDatabase::from_listing(&root);
    let companies: Vec<&Company> = db.company_iter().collect();
    assert_eq!(companies.len(), 1);
    let models: Vec<&Model> = companies[0].model_iter().collect();
    let paths: Vec<&String> = models[0].image_iter().collect();
    assert_eq!(paths, vec!["/a/Canon/EOS100/img1.raw", "/a/Canon/EOS100/img2.raw"]);

    let outcomes = vec![model(
        &models[0].name,
        vec![decoded("img1", 128), undecodable("img2", "libraw error: -2")],
    )];
    let batch = process_company(&companies[0].name, &outcomes);
    assert_eq!(batch.records.len(), 1);
    let record = batch.records[0].as_record();
    assert_eq!(record[0], "Canon");
    assert_eq!(record[1], "EOS100");
    assert_eq!(record[2], "img1");
    assert_eq!(record[3], "128");
    assert_eq!(record[4], "128,128,128,128");
    assert_eq!(record[5], "16383");
    assert_eq!(record[6], "16000,16000,16000,16000");
    assert_eq!(record[7], "0.0");
    assert_eq!(record[8], "1");
    assert_eq!(
        batch.diagnostics,
        vec!["Failed to decode image 'img2'. Model EOS100 from Canon.\n\tlibraw error: -2"]
    );
    assert_eq!(
        String::from_utf8(batch.csv).unwrap(),
        "Canon,EOS100,img1,128,\"128,128,128,128\",16383,\"16000,16000,16000,16000\",0.0,1\n"
    );
}

#[test]
fn empty_archive_scenario() {
    let db = PixlsDatabase::from_listing(&vec![]);
    assert_eq!(db.company_iter().count(), 0);
    let records: Vec<CameraColordata> = Vec::new();
    assert_eq!(String::from_utf8(colordata_header()).unwrap(), HEADER);
    assert_eq!(
        colordata_table(&records),
        "COMPANY MODEL IMAGE BLCK CH_BLCK MAX CHLIN_MAX FL_USED CLR_SPACE \n"
    );
}

#[test]
fn company_without_models_gives_nothing() {
    let batch = process_company("Canon", &vec![]);
    assert!(batch.records.is_empty());
    assert!(batch.csv.is_empty());
    assert!(batch.diagnostics.is_empty());
    let batch = process_company("Canon", &vec![model("EOS100", vec![])]);
    assert!(batch.records.is_empty());
    assert!(batch.csv.is_empty());
    assert!(batch.diagnostics.is_empty());
}

#[test]
fn a_failure_leaves_the_other_images_as_they_are() {
    let with_failures = vec![
        model(
            "A",
            vec![
                unreadable("a0", "denied"),
                decoded("a1", 1),
                undecodable("a2", "bad"),
                decoded("a3", 3),
            ],
        ),
        model("B", vec![undecodable("b0", "bad")]),
        model("C", vec![decoded("c0", 5), unreadable("c1", "gone")]),
    ];
    let without = vec![
        model("A", vec![decoded("a1", 1), decoded("a3", 3)]),
        model("B", vec![]),
        model("C", vec![decoded("c0", 5)]),
    ];
    let one = process_company("Co", &with_failures);
    let other = process_company("Co", &without);
    assert_eq!(images_of(&one.records), vec!["Co/A/a1", "Co/A/a3", "Co/C/c0"]);
    assert_eq!(images_of(&one.records), images_of(&other.records));
    let rows_one: Vec<Vec<String>> = one.records.iter().map(|r| r.as_record()).collect();
    let rows_other: Vec<Vec<String>> = other.records.iter().map(|r| r.as_record()).collect();
    assert_eq!(rows_one, rows_other);
    assert_eq!(one.csv, other.csv);
    assert!(other.diagnostics.is_empty());
    assert_eq!(
        one.diagnostics,
        vec![
            "Failed to read image 'a0'. Model A from Co.\n\tdenied",
            "Failed to decode image 'a2'. Model A from Co.\n\tbad",
            "Failed to decode image 'b0'. Model B from Co.\n\tbad",
            "Failed to read image 'c1'. Model C from Co.\n\tgone",
        ]
    );
}

#[test]
fn delimited_text_quotes_what_it_must() {
    let outcomes = vec![model(
        "E,1",
        vec![ImageOutcome {
            image: "say \"x\"".to_string(),
            outcome: Decoded::Fields(ColorFields {
                black: 0,
                black_per_channel: [1, 2, 3, 4],
                maximum: 7,
                linear_max: [-1, 0, 1, 2],
                flash_used: "1.0".to_string(),
                exif_color_space: 255,
            }),
        }],
    )];
    let batch = process_company("Co\nLtd", &outcomes);
    assert_eq!(
        String::from_utf8(batch.csv).unwrap(),
        "\"Co\nLtd\",\"E,1\",\"say \"\"x\"\"\",0,\"1,2,3,4\",7,\"-1,0,1,2\",1.0,255\n"
    );
}

#[test]
fn records_as_fixed_width_text() {
    let batch = process_company(
        "Canon",
        &vec![model("EOS100", vec![decoded("img1", 128), decoded("a", 7)])],
    );
    let text = colordata_table(&batch.records);
    let expected = "\
COMPANY MODEL  IMAGE BLCK CH_BLCK         MAX   CHLIN_MAX               FL_USED CLR_SPACE \n\
Canon   EOS100 img1  128  128,128,128,128 16383 16000,16000,16000,16000 0.0     1         \n\
Canon   EOS100 a     7    7,7,7,7         16383 16000,16000,16000,16000 0.0     1         \n";
    assert_eq!(text, expected);
}

#[test]
fn delimited_text_becomes_fixed_width_text() {
    let mut csv = Vec::new();
    csv.extend_from_slice(HEADER.as_bytes());
    csv.extend_from_slice(
        b"Canon,EOS100,img1,128,\"128,128,128,128\",16383,\"16000,16000,16000,16000\",0.0,1\n",
    );
    csv.extend_from_slice(b"Nikon,D 90,\"x \"\"y\"\"\",0,\"0,0,0,0\",1,\"1,1,1,1\",0.5,2\n");
    let text = match csv_to_table(&csv) {
        Ok(text) => text,
        Err(_) => panic!("the text can be read"),
    };
    let expected = "\
COMPANY MODEL  IMAGE BLCK CH_BLCK         MAX   CHLIN_MAX               FL_USED CLR_SPACE \n\
Canon   EOS100 img1  128  128,128,128,128 16383 16000,16000,16000,16000 0.0     1         \n\
Nikon   D 90   x \"y\" 0    0,0,0,0         1     1,1,1,1                 0.5     2         \n";
    assert_eq!(text, expected);
}

#[test]
fn written_records_are_read_back_by_the_conversion() {
    let batch = process_company(
        "Canon",
        &vec![model("EOS100", vec![decoded("img1", 128), undecodable("img2", "e"), decoded("img3", 2)])],
    );
    let mut csv = colordata_header();
    csv.extend_from_slice(&batch.csv);
    let converted = match csv_to_table(&csv) {
        Ok(text) => text,
        Err(_) => panic!("the text can be read"),
    };
    assert_eq!(converted, colordata_table(&batch.records));
}

#[test]
fn header_only_text_becomes_a_header_only_table() {
    let text = match csv_to_table(&colordata_header()) {
        Ok(text) => text,
        Err(_) => panic!("the text can be read"),
    };
    assert_eq!(text, "COMPANY MODEL IMAGE BLCK CH_BLCK MAX CHLIN_MAX FL_USED CLR_SPACE \n");
    let nothing = match csv_to_table(&Vec::new()) {
        Ok(text) => text,
        Err(_) => panic!("the text can be read"),
    };
    assert_eq!(nothing, "COMPANY MODEL IMAGE BLCK CH_BLCK MAX CHLIN_MAX FL_USED CLR_SPACE \n");
}

#[test]
fn first_row_of_delimited_text_is_taken_as_its_header() {
    let csv = b"Canon,EOS100,img1,1,\"1,1,1,1\",2,\"3,3,3,3\",0.0,1\n".to_vec();
    let text = match csv_to_table(&csv) {
        Ok(text) => text,
        Err(_) => panic!("the text can be read"),
    };
    assert_eq!(text, "COMPANY MODEL IMAGE BLCK CH_BLCK MAX CHLIN_MAX FL_USED CLR_SPACE \n");
}

#[test]
fn unreadable_delimited_text_is_refused() {
    let uneven = b"a,b,c\n1,2,3\n4,5\n".to_vec();
    assert!(matches!(csv_to_table(&uneven), Err(ConvertError::Csv(_))));
    let not_text = vec![b'a', b',', b'b', b'\n', 0xff, b',', b'x', b'\n'];
    assert!(matches!(csv_to_table(&not_text), Err(ConvertError::Csv(_))));
}

#[test]
fn records_of_another_width_are_refused() {
    let narrow = b"a,b,c\n1,2,3\n4,5,6\n".to_vec();
    assert!(matches!(
        csv_to_table(&narrow),
        Err(ConvertError::Table(TableError::RaggedRow { row: 0 }))
    ));
}
