use pixls_colordata::colorspace::{
    color_space_csv, color_space_table, known_color_spaces, ColorSpaceEntry, COLOR_SPACE_COUNT,
};
use pixls_colordata::sorting::stable_sort;

fn pairs(list: &[ColorSpaceEntry]) -> Vec<(u32, String)> {
    list.iter().map(|e| (e.code, e.name.clone())).collect()
}

fn expected_table() -> Vec<(u32, String)> {
    [
        (0, "NotFound"),
        (1, "sRGB"),
        (2, "AdobeRGB"),
        (3, "WideGamutRGB"),
        (4, "ProPhotoRGB"),
        (5, "ICC"),
        (6, "Uncalibrated"),
        (7, "CameraLinearUniWB"),
        (8, "CameraLinear"),
        (9, "CameraGammaUniWB"),
        (10, "CameraGamma"),
        (11, "MonochromeLinear"),
        (12, "MonochromeGamma"),
        (255, "Unknown"),
    ]
    .iter()
    .map(|(code, name)| (*code, name.to_string()))
    .collect()
}

#[test]
fn known_color_spaces_as_listed() {
    let list = known_color_spaces();
    assert_eq!(list.len(), COLOR_SPACE_COUNT);
    let names: Vec<&str> = list.iter().map(|e| e.name.as_str()).collect();
    assert_eq!(
        names,
        vec![
            "ICC",
            "sRGB",
            "Unknown",
            "AdobeRGB",
            "NotFound",
            "CameraGamma",
            "ProPhotoRGB",
            "CameraLinear",
            "Uncalibrated",
            "WideGamutRGB",
            "MonochromeGamma",
            "CameraGammaUniWB",
            "MonochromeLinear",
            "CameraLinearUniWB"
        ]
    );
    let codes: Vec<u32> = list.iter().map(|e| e.code).collect();
    assert_eq!(codes, vec![5, 1, 255, 2, 0, 10, 4, 8, 6, 3, 12, 9, 11, 7]);
}

#[test]
fn table_has_fourteen_entries_by_ascending_code() {
    let table = color_space_table();
    assert_eq!(table.len(), 14);
    assert_eq!(pairs(&table), expected_table());
    for i in 1..table.len() {
        assert!(table[i - 1].code < table[i].code);
    }
}

#[test]
fn table_is_the_same_whatever_the_order_of_the_list() {
    let mut reversed = known_color_spaces();
    reversed.reverse();
    assert_eq!(pairs(&stable_sort(reversed)), expected_table());
    let mut rotated = known_color_spaces();
    rotated.rotate_left(5);
    assert_eq!(pairs(&stable_sort(rotated)), expected_table());
    let mut swapped = known_color_spaces();
    swapped.swap(0, 13);
    swapped.swap(2, 4);
    assert_eq!(pairs(&stable_sort(swapped)), expected_table());
    assert_eq!(pairs(&stable_sort(color_space_table())), expected_table());
}

#[test]
fn sort_keeps_entries_of_one_code_in_their_order() {
    let list = vec![
        ColorSpaceEntry { name: "b".to_string(), code: 2 },
        ColorSpaceEntry { name: "first".to_string(), code: 1 },
        ColorSpaceEntry { name: "a".to_string(), code: 2 },
        ColorSpaceEntry { name: "second".to_string(), code: 1 },
        ColorSpaceEntry { name: "zero".to_string(), code: 0 },
    ];
    let sorted = stable_sort(list);
    assert_eq!(
        pairs(&sorted),
        vec![
            (0, "zero".to_string()),
            (1, "first".to_string()),
            (1, "second".to_string()),
            (2, "b".to_string()),
            (2, "a".to_string()),
        ]
    );
    assert!(stable_sort(Vec::<ColorSpaceEntry>::new()).is_empty());
}

#[test]
fn table_as_delimited_text() {
    let text = String::from_utf8(color_space_csv(&color_space_table())).unwrap();
    assert_eq!(
        text,
        "0,NotFound\n1,sRGB\n2,AdobeRGB\n3,WideGamutRGB\n4,ProPhotoRGB\n5,ICC\n6,Uncalibrated\n\
7,CameraLinearUniWB\n8,CameraLinear\n9,CameraGammaUniWB\n10,CameraGamma\n11,MonochromeLinear\n\
12,MonochromeGamma\n255,Unknown\n"
    );
    assert!(color_space_csv(&Vec::new()).is_empty());
}
