use pixls_colordata::record::{CameraColordata, CameraTbtl, ColorFields, FIELD_COUNT};
use pixls_colordata::text::{chars_of, name_precedes, push_decimal, push_signed_decimal};

fn fields() -> ColorFields {
    ColorFields {
        black: 128,
        black_per_channel: [128, 128, 128, 128],
        maximum: 16383,
        linear_max: [16000, 16000, 16000, 16000],
        flash_used: "0.0".to_string(),
        exif_color_space: 1,
    }
}

#[test]
fn record_has_nine_fields_in_order() {
    let record = CameraColordata {
        company: "Canon".to_string(),
        model: "EOS100".to_string(),
        image: "img1".to_string(),
        colordata: fields(),
    };
    assert_eq!(
        record.as_record(),
        vec![
            "Canon",
            "EOS100",
            "img1",
            "128",
            "128,128,128,128",
            "16383",
            "16000,16000,16000,16000",
            "0.0",
            "1"
        ]
    );
    assert_eq!(record.as_record().len(), FIELD_COUNT);
}

#[test]
fn record_keeps_channel_order_and_signs() {
    let record = CameraColordata {
        company: String::new(),
        model: "M 1".to_string(),
        image: "a,b".to_string(),
        colordata: ColorFields {
            black: 0,
            black_per_channel: [1, 20, 300, 4294967295],
            maximum: 4294967295,
            linear_max: [-1, 0, i64::MAX, i64::MIN],
            flash_used: "-1.5".to_string(),
            exif_color_space: -2147483648,
        },
    };
    assert_eq!(
        record.as_record(),
        vec![
            "",
            "M 1",
            "a,b",
            "0",
            "1,20,300,4294967295",
            "4294967295",
            "-1,0,9223372036854775807,-9223372036854775808",
            "-1.5",
            "-2147483648"
        ]
    );
}

#[test]
fn headers_are_the_nine_column_names() {
    let expected = vec![
        "COMPANY", "MODEL", "IMAGE", "BLCK", "CH_BLCK", "MAX", "CHLIN_MAX", "FL_USED",
        "CLR_SPACE",
    ];
    assert_eq!(CameraColordata::headers(), expected);
    assert_eq!(CameraTbtl::headers(), expected);
}

#[test]
fn taken_record_is_given_back_as_it_is() {
    let taken = CameraTbtl { records: vec!["a".to_string(), String::new(), " b ".to_string()] };
    assert_eq!(taken.as_record(), vec!["a", "", " b "]);
    let empty = CameraTbtl { records: vec![] };
    assert_eq!(empty.as_record(), Vec::<String>::new());
}

#[test]
fn decimal_forms() {
    for n in [0u64, 1, 9, 10, 11, 99, 100, 255, 16383, 4294967295, u64::MAX] {
        let mut s = String::from("x");
        push_decimal(&mut s, n);
        assert_eq!(s, format!("x{}", n));
    }
    for n in [0i64, 1, -1, 9, -9, 10, -10, 12345, -12345, i64::MAX, i64::MIN] {
        let mut s = String::new();
        push_signed_decimal(&mut s, n);
        assert_eq!(s, format!("{}", n));
    }
}

#[test]
fn name_order_is_the_order_of_strings() {
    let names = ["", "a", "A", "ab", "abc", "b", "Canon", "Can", "canon", "Ärger", "z", "éa", "e"];
    for a in names {
        for b in names {
            assert_eq!(name_precedes(a, b), a <= b, "{:?} against {:?}", a, b);
        }
    }
}

#[test]
fn characters_of_a_string() {
    assert_eq!(chars_of("aé\n"), vec!['a', 'é', '\n']);
    assert_eq!(chars_of(""), Vec::<char>::new());
}
