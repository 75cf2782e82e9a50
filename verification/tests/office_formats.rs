use document_diff_report::office::{
    col_letter, docx_paragraph_lines, extract_docx, extract_office, extract_pptx, extract_xlsx, is_pdf_extension, join_cjk_aware,
    office_format, OfficeError, OfficeFormat,
};
use document_diff_report::slides::{parse_u32, slide_number};
use std::io::Write;

fn zip_of(entries: &[(&str, &str)]) -> Vec<u8> {
    let mut w = zip::ZipWriter::new(std::io::Cursor::new(Vec::new()));
    for (name, body) in entries {
        w.start_file(*name, zip::write::SimpleFileOptions::default()).unwrap();
        w.write_all(body.as_bytes()).unwrap();
    }
    w.finish().unwrap().into_inner()
}

#[test]
fn column_letters_are_bijective_base_26() {
    assert_eq!(col_letter(0), "A");
    assert_eq!(col_letter(25), "Z");
    assert_eq!(col_letter(26), "AA");
    assert_eq!(col_letter(51), "AZ");
    assert_eq!(col_letter(52), "BA");
    assert_eq!(col_letter(701), "ZZ");
    assert_eq!(col_letter(702), "AAA");
    assert_eq!(col_letter(16383), "XFD");
}

#[test]
fn joining_frame_paragraphs_respects_cjk() {
    let mut acc = String::new();
    join_cjk_aware(&mut acc, "日本");
    join_cjk_aware(&mut acc, "語です");
    join_cjk_aware(&mut acc, "English");
    assert_eq!(acc, "日本語です English");
}

#[test]
fn slide_numbers_parse_like_str_parse() {
    assert_eq!(slide_number("ppt/slides/slide12.xml"), Some(12));
    assert_eq!(slide_number("ppt/slides/slide+3.xml"), Some(3));
    assert_eq!(slide_number("ppt/slides/slide.xml"), None);
    assert_eq!(slide_number("ppt/slides/_rels/slide1.xml.rels"), None);
    assert_eq!(slide_number("ppt/slides/slide4294967296.xml"), None);
    let digits: Vec<char> = "4294967295".chars().collect();
    assert_eq!(parse_u32(&digits), Some(u32::MAX));
    let bad: Vec<char> = "1a".chars().collect();
    assert_eq!(parse_u32(&bad), None);
}

#[test]
fn formats_follow_the_extension_in_any_case() {
    assert_eq!(office_format(Some("DOCX")), Some(OfficeFormat::Docx));
    assert_eq!(office_format(Some("pptx")), Some(OfficeFormat::Pptx));
    assert_eq!(office_format(Some("Xlsm")), Some(OfficeFormat::Xlsx));
    assert_eq!(office_format(Some("csv")), Some(OfficeFormat::Csv));
    assert_eq!(office_format(Some("txt")), None);
    assert_eq!(office_format(None), None);
    assert!(is_pdf_extension(Some("PDF")));
    assert!(!is_pdf_extension(Some("pdfx")));
    assert!(!is_pdf_extension(None));
}

#[test]
fn unsupported_extension_is_reported_in_lower_case() {
    match extract_office(Some("TXT"), b"") {
        Err(OfficeError::Unsupported(Some(e))) => assert_eq!(e, "txt"),
        other => panic!("unexpected: {:?}", other.map(|b| b.len())),
    }
    assert!(matches!(extract_office(None, b""), Err(OfficeError::Unsupported(None))));
}

#[test]
fn docx_paragraphs_are_numbered() {
    let xml = r#"<w:document><w:body><w:p><w:r><w:t>第1 目的</w:t></w:r></w:p><w:p><w:r><w:t>本文の</w:t></w:r><w:r><w:t>続き</w:t></w:r></w:p><w:tbl><w:tr><w:tc><w:p><w:r><w:t>セル</w:t></w:r></w:p></w:tc></w:tr></w:tbl></w:body></w:document>"#;
    let bytes = zip_of(&[("word/document.xml", xml)]);
    let blocks = extract_docx(&bytes).unwrap();
    let texts: Vec<(&str, &str)> = blocks.iter().map(|b| (b.loc.as_str(), b.text.as_str())).collect();
    assert_eq!(texts, vec![("¶1", "第1 目的"), ("¶2", "本文の続き"), ("¶3", "セル")]);
}

#[test]
fn docx_without_body_is_a_zip_error() {
    let bytes = zip_of(&[("other.xml", "<a/>")]);
    assert!(matches!(extract_docx(&bytes), Err(OfficeError::Zip(_))));
    assert!(matches!(extract_docx(b"not a zip"), Err(OfficeError::Zip(_))));
}

#[test]
fn malformed_docx_body_is_an_xml_error() {
    let bytes = zip_of(&[("word/document.xml", "<w:p><w:t>x</w:p>")]);
    assert!(matches!(extract_docx(&bytes), Err(OfficeError::Xml(_))));
}

#[test]
fn pptx_frames_in_slide_order() {
    let slide = |t1: &str, t2: &str| {
        format!(
            "<p:sld><p:sp><p:txBody><a:p><a:r><a:t>{}</a:t></a:r></a:p><a:p><a:r><a:t>{}</a:t></a:r></a:p></p:txBody></p:sp><p:sp><p:txBody><a:p><a:r><a:t> </a:t></a:r></a:p></p:txBody></p:sp></p:sld>",
            t1, t2
        )
    };
    let s10 = slide("十枚目", "です");
    let s2 = slide("Title", "second line");
    let bytes = zip_of(&[
        ("ppt/slides/slide10.xml", s10.as_str()),
        ("ppt/slides/slide2.xml", s2.as_str()),
        ("ppt/slides/_rels/slide2.xml.rels", "<r/>"),
    ]);
    let blocks = extract_pptx(&bytes).unwrap();
    let texts: Vec<(&str, &str)> = blocks.iter().map(|b| (b.loc.as_str(), b.text.as_str())).collect();
    assert_eq!(texts, vec![("s.2", "Title second line"), ("s.10", "十枚目です")]);
}

fn workbook_of(sheet_data: &str) -> Vec<u8> {
    let sheet = format!(
        r#"<?xml version="1.0" encoding="UTF-8"?><worksheet xmlns="http://schemas.openxmlformats.org/spreadsheetml/2006/main"><sheetData>{}</sheetData></worksheet>"#,
        sheet_data
    );
    zip_of(&[
        (
            "[Content_Types].xml",
            r#"<?xml version="1.0" encoding="UTF-8"?><Types xmlns="http://schemas.openxmlformats.org/package/2006/content-types"><Default Extension="rels" ContentType="application/vnd.openxmlformats-package.relationships+xml"/><Default Extension="xml" ContentType="application/xml"/><Override PartName="/xl/workbook.xml" ContentType="application/vnd.openxmlformats-officedocument.spreadsheetml.sheet.main+xml"/><Override PartName="/xl/worksheets/sheet1.xml" ContentType="application/vnd.openxmlformats-officedocument.spreadsheetml.worksheet+xml"/></Types>"#,
        ),
        (
            "_rels/.rels",
            r#"<?xml version="1.0" encoding="UTF-8"?><Relationships xmlns="http://schemas.openxmlformats.org/package/2006/relationships"><Relationship Id="rId1" Type="http://schemas.openxmlformats.org/officeDocument/2006/relationships/officeDocument" Target="xl/workbook.xml"/></Relationships>"#,
        ),
        (
            "xl/workbook.xml",
            r#"<?xml version="1.0" encoding="UTF-8"?><workbook xmlns="http://schemas.openxmlformats.org/spreadsheetml/2006/main" xmlns:r="http://schemas.openxmlformats.org/officeDocument/2006/relationships"><sheets><sheet name="様式" sheetId="1" r:id="rId1"/></sheets></workbook>"#,
        ),
        (
            "xl/_rels/workbook.xml.rels",
            r#"<?xml version="1.0" encoding="UTF-8"?><Relationships xmlns="http://schemas.openxmlformats.org/package/2006/relationships"><Relationship Id="rId1" Type="http://schemas.openxmlformats.org/officeDocument/2006/relationships/worksheet" Target="worksheets/sheet1.xml"/></Relationships>"#,
        ),
        ("xl/worksheets/sheet1.xml", sheet.as_str()),
    ])
}

#[test]
fn xlsx_rows_show_formulas_and_sheet_headings() {
    let bytes = workbook_of(r#"<row r="2"><c r="B2" t="inlineStr"><is><t>提出日</t></is></c><c r="C2"><v>5</v></c><c r="D2"><f>C2*2</f><v>10</v></c></row>"#);
    let blocks = extract_xlsx(&bytes).unwrap();
    let texts: Vec<(&str, &str)> = blocks.iter().map(|b| (b.loc.as_str(), b.text.as_str())).collect();
    assert_eq!(texts, vec![("様式", "【シート】様式"), ("様式!2", "B: 提出日 ┃ C: 5 ┃ D: =C2*2")]);
}

#[test]
fn inserting_a_row_only_renames_rows_below() {
    let before = workbook_of(
        r#"<row r="2"><c r="B2" t="inlineStr"><is><t>見出し</t></is></c></row><row r="3"><c r="B3" t="inlineStr"><is><t>本文</t></is></c></row>"#,
    );
    let after = workbook_of(
        r#"<row r="2"><c r="B2" t="inlineStr"><is><t>見出し</t></is></c></row><row r="3"><c r="B3" t="inlineStr"><is><t>追加</t></is></c></row><row r="4"><c r="B4" t="inlineStr"><is><t>本文</t></is></c></row>"#,
    );
    let b1 = extract_xlsx(&before).unwrap();
    let b2 = extract_xlsx(&after).unwrap();
    let t1: Vec<(&str, &str)> = b1.iter().map(|b| (b.loc.as_str(), b.text.as_str())).collect();
    let t2: Vec<(&str, &str)> = b2.iter().map(|b| (b.loc.as_str(), b.text.as_str())).collect();
    assert_eq!(t1, vec![("様式", "【シート】様式"), ("様式!2", "B: 見出し"), ("様式!3", "B: 本文")]);
    assert_eq!(t2, vec![("様式", "【シート】様式"), ("様式!2", "B: 見出し"), ("様式!3", "B: 追加"), ("様式!4", "B: 本文")]);
}

#[test]
fn unreadable_workbook_is_an_xlsx_error() {
    assert!(matches!(extract_xlsx(b"not a workbook"), Err(OfficeError::Xlsx(_))));
}

#[test]
fn docx_references_become_text() {
    let xml = "<w:document><w:body><w:p><w:r><w:t>R&amp;D</w:t></w:r></w:p><w:p><w:r><w:t>計画</w:t></w:r></w:p></w:body></w:document>";
    let lines = docx_paragraph_lines(xml).unwrap();
    assert_eq!(lines, vec!["R&D".to_string(), String::new(), "計画".to_string(), String::new()]);
    let xml2 = "<w:p><w:t>&lt;&#65;&#x42;&quot;&apos;&gt;</w:t></w:p>";
    assert_eq!(docx_paragraph_lines(xml2).unwrap()[0], "<AB\"'>");
}

#[test]
fn pptx_references_become_text() {
    let s1 = "<p:sld><p:sp><p:txBody><a:p><a:r><a:t>Q&amp;A</a:t></a:r></a:p></p:txBody></p:sp></p:sld>";
    let bytes = zip_of(&[("ppt/slides/slide1.xml", s1)]);
    let blocks = extract_pptx(&bytes).unwrap();
    assert_eq!(blocks[0].text, "Q&A");
}
