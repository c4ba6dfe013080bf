use pixls_colordata::delimited::write_records;
use pixls_colordata::reading::{read_table, Table};
use pixls_colordata::table::{render_table, TableError};

fn strings(values: &[&str]) -> Vec<String> {
    values.iter().map(|v| v.to_string()).collect()
}

fn rows(values: &[&[&str]]) -> Vec<Vec<String>> {
    values.iter().map(|r| strings(r)).collect()
}

fn read(text: &str) -> Table {
    match read_table(text) {
        Some(table) => table,
        None => panic!("the text has a line"),
    }
}

#[test]
fn columns_are_as_wide_as_their_widest_value_and_one_space() {
    let text = render_table(&strings(&["A", "LONGER"]), &rows(&[&["xyz", "1"], &["", "1234567"]]));
    assert_eq!(text, Ok("A   LONGER  \nxyz 1       \n    1234567 \n".to_string()));
}

#[test]
fn table_without_rows_is_its_header_line() {
    assert_eq!(render_table(&strings(&["A", "BC"]), &vec![]), Ok("A BC \n".to_string()));
    assert_eq!(render_table(&vec![], &vec![]), Ok("\n".to_string()));
    assert_eq!(render_table(&vec![], &vec![vec![], vec![]]), Ok("\n\n\n".to_string()));
}

#[test]
fn width_counts_characters() {
    let text = render_table(&strings(&["N"]), &rows(&[&["é"], &["ab"]]));
    assert_eq!(text, Ok("N  \né  \nab \n".to_string()));
}

#[test]
fn ragged_row_is_refused_by_its_index() {
    let headers = strings(&["A", "B"]);
    assert_eq!(
        render_table(&headers, &rows(&[&["1", "2"], &["1"], &["1", "2", "3"]])),
        Err(TableError::RaggedRow { row: 1 })
    );
    assert_eq!(
        render_table(&headers, &rows(&[&["1", "2", "3"]])),
        Err(TableError::RaggedRow { row: 0 })
    );
    assert_eq!(render_table(&vec![], &rows(&[&["1"]])), Err(TableError::RaggedRow { row: 0 }));
}

#[test]
fn table_is_read_back_as_it_was() {
    let headers = strings(&["COMPANY", "MODEL", "X"]);
    let values = rows(&[
        &["Canon", "EOS 100 D", "128,128"],
        &["", " lead", ""],
        &["a much longer company", "", "é"],
        &["", "", ""],
    ]);
    let text = match render_table(&headers, &values) {
        Ok(text) => text,
        Err(_) => panic!("the rows are even"),
    };
    let table = read(&text);
    assert_eq!(table.headers, headers);
    assert_eq!(table.rows, values);
}

#[test]
fn padding_is_not_told_from_a_space_at_the_end() {
    let headers = strings(&["A", "B"]);
    let values = rows(&[&["x ", "y"]]);
    let text = match render_table(&headers, &values) {
        Ok(text) => text,
        Err(_) => panic!("the rows are even"),
    };
    let table = read(&text);
    assert_eq!(table.rows, rows(&[&["x", "y"]]));
}

#[test]
fn reading_text_by_hand() {
    let table = read("AB  C D\n1   2 3\nlonger than the header\n\nx\n");
    assert_eq!(table.headers, strings(&["AB", "C", "D"]));
    assert_eq!(
        table.rows,
        rows(&[&["1", "2", "3"], &["long", "er", " than the header"], &["", "", ""], &["x", "", ""]])
    );
    let last = read("A B\n1 2");
    assert_eq!(last.rows, rows(&[&["1", "2"]]));
    let blank = read("\n");
    assert_eq!(blank.headers, Vec::<String>::new());
    assert_eq!(blank.rows, Vec::<Vec<String>>::new());
    let spaced = read("  A\nxyz\n");
    assert_eq!(spaced.headers, strings(&["A"]));
    assert_eq!(spaced.rows, rows(&[&["z"]]));
}

#[test]
fn text_without_a_line_holds_nothing() {
    assert!(read_table("").is_none());
}

#[test]
fn records_as_delimited_text() {
    let text = write_records(&rows(&[&["a", "b,c", ""], &["say \"hi\"", "two\nlines", "x"]]));
    assert_eq!(
        String::from_utf8(text).unwrap(),
        "a,\"b,c\",\n\"say \"\"hi\"\"\",\"two\nlines\",x\n"
    );
    assert_eq!(String::from_utf8(write_records(&rows(&[&[""]]))).unwrap(), "\"\"\n");
    assert!(write_records(&vec![]).is_empty());
}
