use document_diff_report::office::{extract_csv, read_csv_text, OfficeError};

#[test]
fn extracts_utf8_csv() {
    let blocks = extract_csv("名称,金額\r\n東京,100\r\n".as_bytes()).unwrap();

    assert_eq!(blocks.len(), 2);
    assert_eq!(blocks[0].loc, "csv:1");
    assert_eq!(blocks[0].text, "A: 名称 ┃ B: 金額");
    assert_eq!(blocks[1].text, "A: 東京 ┃ B: 100");
}

#[test]
fn extracts_utf8_bom_csv_without_bom_in_first_cell() {
    let blocks = extract_csv(b"\xef\xbb\xbfname,amount\r\nalpha,100\r\n").unwrap();

    assert_eq!(blocks.len(), 2);
    assert_eq!(blocks[0].text, "A: name ┃ B: amount");
    assert!(!blocks[0].text.contains('\u{feff}'));
}

#[test]
fn extracts_cp932_csv() {
    let (encoded, _, had_errors) = encoding_rs::SHIFT_JIS.encode("名称,金額\r\n東京,100\r\n");
    assert!(!had_errors);
    let blocks = extract_csv(&encoded).unwrap();

    assert_eq!(blocks.len(), 2);
    assert_eq!(blocks[0].text, "A: 名称 ┃ B: 金額");
    assert_eq!(blocks[1].text, "A: 東京 ┃ B: 100");
}

#[test]
fn csv_skips_blank_fields_and_rows_but_keeps_numbering() {
    let blocks = extract_csv(b"a,,c\n , \nx\n").unwrap();
    assert_eq!(blocks.len(), 2);
    assert_eq!(blocks[0].loc, "csv:1");
    assert_eq!(blocks[0].text, "A: a ┃ C: c");
    assert_eq!(blocks[1].loc, "csv:3");
    assert_eq!(blocks[1].text, "A: x");
}

#[test]
fn csv_fields_are_trimmed() {
    let blocks = extract_csv(b"  left ,\tright\t\n").unwrap();
    assert_eq!(blocks[0].text, "A: left ┃ B: right");
}

#[test]
fn csv_undecodable_bytes_are_an_encoding_error() {
    // A lone Shift_JIS lead byte is neither UTF-8 nor complete Shift_JIS.
    match extract_csv(&[b'a', b',', 0x82]) {
        Err(OfficeError::CsvEncoding) => {}
        other => panic!("unexpected: {:?}", other.map(|b| b.len())),
    }
}

#[test]
fn csv_text_prefers_utf8_and_strips_the_bom() {
    assert_eq!(read_csv_text("\u{feff}ab".as_bytes()).unwrap(), "ab");
    assert_eq!(read_csv_text("東京".as_bytes()).unwrap(), "東京");
    let (sjis, _, _) = encoding_rs::SHIFT_JIS.encode("東京");
    assert_eq!(read_csv_text(&sjis).unwrap(), "東京");
}

#[test]
fn csv_quoted_field_keeps_its_comma() {
    let blocks = extract_csv(b"\"a,b\",c\n").unwrap();
    assert_eq!(blocks[0].text, "A: a,b ┃ B: c");
}
