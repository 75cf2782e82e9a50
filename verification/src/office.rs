//! Office documents (docx, pptx, xlsx/xlsm) and CSV, serialized to comparison blocks.
//!
//! - docx: the text of each `<w:p>` paragraph of `word/document.xml` (table cells included),
//!   grouped like PDF lines; blocks are labelled `¶N`.
//! - pptx: one block per text frame (`<p:txBody>`) of each slide, labelled `s.N`.
//! - xlsx/xlsm: one block per row, labelled `Sheet!row`, formulas shown instead of values,
//!   and a `【シート】name` block before each sheet.
//! - csv: one block per record, labelled `csv:row`.
use vstd::prelude::*;
use vstd::utf8::{valid_utf8, decode_utf8};
use std::io::Read;
use calamine::{Data, Reader as _, Xlsx, XlsxError};
use quick_xml::events::Event;
use quick_xml::XmlVersion;
use zip::result::ZipError;
use crate::slides::{slide_parts, slides_view, sorted_slides};
use crate::text::{chars_of, string_of, strings_view, decimal, push_decimal, is_ws};
use crate::extract::{
    trim_front, trim_back,
    Block, BlockView, blocks_view, append_spec, append_line, trim_spec, trim_chars, push_chars,
    lines_to_paragraphs, paragraphs_spec,
};

verus! {

#[verifier::external_type_specification]
#[verifier::external_body]
pub struct ExZipError(ZipError);

#[verifier::external_type_specification]
#[verifier::external_body]
pub struct ExXmlError(quick_xml::Error);

#[verifier::external_type_specification]
#[verifier::external_body]
pub struct ExXlsxError(XlsxError);

#[verifier::external_type_specification]
#[verifier::external_body]
pub struct ExCsvError(csv::Error);

/// Why a document could not be read.
#[derive(Debug)]
pub enum OfficeError {
    /// The archive could not be read, or an entry is missing or not UTF-8 text.
    Zip(ZipError),
    /// An XML part is malformed.
    Xml(quick_xml::Error),
    /// The workbook could not be opened.
    Xlsx(XlsxError),
    /// A CSV record could not be read.
    Csv(csv::Error),
    /// The CSV bytes are neither UTF-8 nor Shift_JIS.
    CsvEncoding,
    /// A sheet too large for its row numbers.
    SheetTooLarge,
    /// The file extension (lower-cased) names no supported format.
    Unsupported(Option<String>),
}

/// The kind of an [`OfficeError`], for contracts.
#[derive(Debug, Clone, Copy, PartialEq, Eq, Structural)]
pub enum Failure {
    Zip,
    Xml,
    Xlsx,
    Csv,
    CsvEncoding,
    SheetTooLarge,
    Unsupported,
}

pub open spec fn failure_of(e: OfficeError) -> Failure {
    match e {
        OfficeError::Zip(_) => Failure::Zip,
        OfficeError::Xml(_) => Failure::Xml,
        OfficeError::Xlsx(_) => Failure::Xlsx,
        OfficeError::Csv(_) => Failure::Csv,
        OfficeError::CsvEncoding => Failure::CsvEncoding,
        OfficeError::SheetTooLarge => Failure::SheetTooLarge,
        OfficeError::Unsupported(_) => Failure::Unsupported,
    }
}

/// The outcome of an extraction: the blocks, or the kind of failure.
pub open spec fn outcome(r: Result<Vec<Block>, OfficeError>) -> Result<Seq<BlockView>, Failure> {
    match r {
        Ok(bs) => Ok(blocks_view(bs@)),
        Err(e) => Err(failure_of(e)),
    }
}

/// An XML event as the extraction reads it: element starts and ends by qualified name, text
/// content, an entity or character reference by its name (`amp` for `&amp;`, `#38` for
/// `&#38;`), and everything else.
pub enum XmlEvent {
    Start(String),
    End(String),
    Text(String),
    Ref(String),
    Other,
}

pub enum XmlEventView {
    Start(Seq<char>),
    End(Seq<char>),
    Text(Seq<char>),
    Ref(Seq<char>),
    Other,
}

impl View for XmlEvent {
    type V = XmlEventView;

    open spec fn view(&self) -> XmlEventView {
        match self {
            XmlEvent::Start(n) => XmlEventView::Start(n@),
            XmlEvent::End(n) => XmlEventView::End(n@),
            XmlEvent::Text(t) => XmlEventView::Text(t@),
            XmlEvent::Ref(n) => XmlEventView::Ref(n@),
            XmlEvent::Other => XmlEventView::Other,
        }
    }
}

pub open spec fn events_view(s: Seq<XmlEvent>) -> Seq<XmlEventView> {
    s.map_values(|e: XmlEvent| e@)
}

pub open spec fn grid_view(g: Seq<Vec<String>>) -> Seq<Seq<Seq<char>>> {
    g.map_values(|r: Vec<String>| strings_view(r@))
}

pub open spec fn opt_strings_view(r: Seq<Option<String>>) -> Seq<Option<Seq<char>>> {
    r.map_values(|c: Option<String>| match c {
        Some(s) => Some(s@),
        None => None,
    })
}

pub open spec fn opt_grid_view(g: Seq<Vec<Option<String>>>) -> Seq<Seq<Option<Seq<char>>>> {
    g.map_values(|r: Vec<Option<String>>| opt_strings_view(r@))
}

// ---------------------------------------------------------------- outside results

/// The names of the entries of a zip archive, in archive order (`None`: unreadable).
pub uninterp spec fn zip_names_of(bytes: Seq<u8>) -> Option<Seq<Seq<char>>>;

/// The text of a named entry of a zip archive (`None`: unreadable, missing or not UTF-8).
pub uninterp spec fn zip_text_of(bytes: Seq<u8>, name: Seq<char>) -> Option<Seq<char>>;

/// The events of an XML text up to its end (`None`: malformed).
pub uninterp spec fn xml_events_of(xml: Seq<char>) -> Option<Seq<XmlEventView>>;

/// The sheet names of a workbook, in workbook order (`None`: the workbook cannot be opened).
pub uninterp spec fn xlsx_sheets_of(bytes: Seq<u8>) -> Option<Seq<Seq<char>>>;

/// The formula range of a sheet: its top-left cell and its rows of formulas, empty where a
/// cell has none (`None`: no formula range).
pub uninterp spec fn xlsx_formulas_of(bytes: Seq<u8>, sheet: Seq<char>) -> Option<(Option<(u32, u32)>, Seq<Seq<Seq<char>>>)>;

/// The value range of a sheet: its top-left cell and its rows of displayed values, `None`
/// for an empty cell (`None`: the sheet cannot be read).
pub uninterp spec fn xlsx_values_of(bytes: Seq<u8>, sheet: Seq<char>) -> Option<(Option<(u32, u32)>, Seq<Seq<Option<Seq<char>>>>)>;

/// The records of a CSV text, without header handling and of any length (`None`: a record
/// cannot be read).
pub uninterp spec fn csv_rows_of(text: Seq<char>) -> Option<Seq<Seq<Seq<char>>>>;

/// Shift_JIS decoding of bytes (a byte order mark selects its own encoding), and whether
/// malformed sequences were replaced.
pub uninterp spec fn sjis_decode_of(bytes: Seq<u8>) -> (Seq<char>, bool);

/// The entry names of a zip archive in memory (`ZipArchive::new`, then `by_index` and `name`
/// for each index); the result is named `zip_names_of` of the bytes.
#[verifier::external_body]
fn zip_entry_names(bytes: &[u8]) -> (r: Result<Vec<String>, ZipError>)
    ensures
        match r {
            Ok(v) => zip_names_of(bytes@) == Some(strings_view(v@)),
            Err(_) => zip_names_of(bytes@) is None,
        },
{
    let mut archive = zip::ZipArchive::new(std::io::Cursor::new(bytes))?;
    let mut names = Vec::new();
    for i in 0..archive.len() {
        names.push(archive.by_index(i)?.name()?.to_string());
    }
    Ok(names)
}

/// The text of an entry of a zip archive in memory (`ZipArchive::new`, `by_name`,
/// `read_to_string`); the result is named `zip_text_of` of the bytes and the name.
#[verifier::external_body]
fn zip_entry_text(bytes: &[u8], name: &str) -> (r: Result<String, ZipError>)
    ensures
        match r {
            Ok(s) => zip_text_of(bytes@, name@) == Some(s@),
            Err(_) => zip_text_of(bytes@, name@) is None,
        },
{
    let mut archive = zip::ZipArchive::new(std::io::Cursor::new(bytes))?;
    let mut s = String::new();
    archive.by_name(name)?.read_to_string(&mut s)?;
    Ok(s)
}

/// The events of `quick_xml::Reader::from_str` (text not trimmed) up to `Eof`, each start
/// and end by its qualified name, each text by `xml_content` and each general reference by
/// its name; the result is named `xml_events_of` of the text.
#[verifier::external_body]
fn xml_events(xml: &str) -> (r: Result<Vec<XmlEvent>, quick_xml::Error>)
    ensures
        match r {
            Ok(v) => xml_events_of(xml@) == Some(events_view(v@)),
            Err(_) => xml_events_of(xml@) is None,
        },
{
    let mut reader = quick_xml::Reader::from_str(xml);
    reader.config_mut().trim_text(false);
    let mut out = Vec::new();
    loop {
        out.push(match reader.read_event()? {
            Event::Start(e) => XmlEvent::Start(e.name().as_ref().to_string()),
            Event::End(e) => XmlEvent::End(e.name().as_ref().to_string()),
            Event::Text(t) => XmlEvent::Text(t.xml_content(XmlVersion::Implicit1_0).into_owned()),
            Event::GeneralRef(r) => XmlEvent::Ref(String::from(&*r)),
            Event::Eof => return Ok(out),
            _ => XmlEvent::Other,
        });
    }
}

pub open spec fn dec_digit(c: char) -> bool {
    '0' <= c && c <= '9'
}

pub open spec fn hex_digit(c: char) -> bool {
    dec_digit(c) || ('a' <= c && c <= 'f') || ('A' <= c && c <= 'F')
}

pub open spec fn digit_val(c: char) -> int {
    if dec_digit(c) {
        c as int - '0' as int
    } else if 'a' <= c && c <= 'f' {
        c as int - 'a' as int + 10
    } else {
        c as int - 'A' as int + 10
    }
}

/// The value of a string of digits in the given radix.
pub open spec fn radix_value(d: Seq<char>, radix: int) -> int
    decreases d.len(),
{
    if d.len() == 0 {
        0
    } else {
        radix_value(d.drop_last(), radix) * radix + digit_val(d.last())
    }
}

/// The code of a character reference after `#`: `x` and hexadecimal digits, or decimal
/// digits, of a value that fits in `u32`.
pub open spec fn char_ref_code(num: Seq<char>) -> Option<int> {
    let hex = num.len() > 0 && num[0] == 'x';
    let d = if hex { num.drop_first() } else { num };
    let radix: int = if hex { 16 } else { 10 };
    if d.len() > 0 && (forall|i: int| 0 <= i < d.len() ==> if hex { hex_digit(#[trigger] d[i]) } else { dec_digit(d[i]) })
        && radix_value(d, radix) <= u32::MAX {
        Some(radix_value(d, radix))
    } else {
        None
    }
}

/// A Unicode scalar value other than NUL.
pub open spec fn scalar_value(v: int) -> bool {
    (0 < v && v < 0xD800) || (0xE000 <= v && v <= 0x10FFFF)
}

/// The text an XML reference stands for: the five predefined entities, or a character
/// reference `#N` / `#xH`; `None` for anything else.
pub open spec fn reference_text(name: Seq<char>) -> Option<Seq<char>> {
    if name == "lt"@ {
        Some("<"@)
    } else if name == "gt"@ {
        Some(">"@)
    } else if name == "amp"@ {
        Some("&"@)
    } else if name == "apos"@ {
        Some("'"@)
    } else if name == "quot"@ {
        Some("\""@)
    } else if name.len() > 0 && name[0] == '#' {
        match char_ref_code(name.drop_first()) {
            Some(v) => if scalar_value(v) {
                Some(seq![v as char])
            } else {
                None
            },
            None => None,
        }
    } else {
        None
    }
}

/// A reference name as the reader gives it: without `&` or `;`.
pub open spec fn plain_ref_name(name: Seq<char>) -> bool {
    forall|i: int| 0 <= i < name.len() ==> #[trigger] name[i] != '&' && name[i] != ';'
}

/// `quick_xml::escape::unescape` of `&name;`: the predefined XML entities and character
/// references resolve (`reference_text`), anything else is an error (`None`).
#[verifier::external_body]
fn resolve_reference(name: &str) -> (r: Option<String>)
    ensures
        plain_ref_name(name@) ==> match r {
            Some(t) => reference_text(name@) == Some(t@),
            None => reference_text(name@) is None,
        },
{
    quick_xml::escape::unescape(&format!("&{name};")).ok().map(|t| t.into_owned())
}

/// The text of a reference (`reference_text`); `None` for a name that is not plain.
pub open spec fn ref_text(name: Seq<char>) -> Option<Seq<char>> {
    if plain_ref_name(name) {
        reference_text(name)
    } else {
        None
    }
}

fn reference(name: &String) -> (r: Option<Vec<char>>)
    ensures
        match r {
            Some(t) => ref_text(name@) == Some(t@),
            None => ref_text(name@) is None,
        },
{
    let cs = chars_of(name.as_str());
    let mut i: usize = 0;
    while i < cs.len()
        invariant
            i <= cs.len(),
            cs@ == name@,
            forall|k: int| 0 <= k < i ==> #[trigger] cs@[k] != '&' && cs@[k] != ';',
        decreases cs.len() - i,
    {
        if cs[i] == '&' || cs[i] == ';' {
            assert(!plain_ref_name(name@)) by {
                assert(name@[i as int] == cs@[i as int]);
            }
            return None;
        }
        i = i + 1;
    }
    match resolve_reference(name.as_str()) {
        Some(t) => Some(chars_of(t.as_str())),
        None => None,
    }
}

/// The sheet names of a workbook in memory (`Xlsx::new`, `sheet_names`); the result is named
/// `xlsx_sheets_of` of the bytes.
#[verifier::external_body]
fn xlsx_sheet_names(bytes: &[u8]) -> (r: Result<Vec<String>, XlsxError>)
    ensures
        match r {
            Ok(v) => xlsx_sheets_of(bytes@) == Some(strings_view(v@)),
            Err(_) => xlsx_sheets_of(bytes@) is None,
        },
{
    let wb: Xlsx<_> = calamine::Reader::new(std::io::Cursor::new(bytes))?;
    Ok(wb.sheet_names())
}

/// The formula range of a sheet (`worksheet_formula`, then `start` and `rows`); the result is
/// named `xlsx_formulas_of` of the bytes and the sheet name.
#[verifier::external_body]
fn xlsx_formula_grid(bytes: &[u8], sheet: &str) -> (r: Option<(Option<(u32, u32)>, Vec<Vec<String>>)>)
    ensures
        xlsx_formulas_of(bytes@, sheet@) == match r {
            Some((start, rows)) => Some((start, grid_view(rows@))),
            None => None,
        },
{
    let mut wb: Xlsx<_> = calamine::Reader::new(std::io::Cursor::new(bytes)).ok()?;
    let range = wb.worksheet_formula(sheet).ok()?;
    Some((range.start(), range.rows().map(|row| row.to_vec()).collect()))
}

/// The value range of a sheet (`worksheet_range`, then `start` and `rows`), each cell shown
/// by its `Display` and an empty cell as `None`; the result is named `xlsx_values_of` of the
/// bytes and the sheet name.
#[verifier::external_body]
fn xlsx_value_grid(bytes: &[u8], sheet: &str) -> (r: Option<(Option<(u32, u32)>, Vec<Vec<Option<String>>>)>)
    ensures
        xlsx_values_of(bytes@, sheet@) == match r {
            Some((start, rows)) => Some((start, opt_grid_view(rows@))),
            None => None,
        },
{
    let mut wb: Xlsx<_> = calamine::Reader::new(std::io::Cursor::new(bytes)).ok()?;
    let range = wb.worksheet_range(sheet).ok()?;
    let shown = |c: &Data| match c {
        Data::Empty => None,
        other => Some(other.to_string()),
    };
    Some((range.start(), range.rows().map(|row| row.iter().map(shown).collect()).collect()))
}

/// The records of a CSV text (`ReaderBuilder` without headers and flexible, `records`), up to
/// the first that cannot be read; the result is named `csv_rows_of` of the text.
#[verifier::external_body]
fn csv_records(text: &str) -> (r: Result<Vec<Vec<String>>, csv::Error>)
    ensures
        match r {
            Ok(v) => csv_rows_of(text@) == Some(grid_view(v@)),
            Err(_) => csv_rows_of(text@) is None,
        },
{
    let mut reader = csv::ReaderBuilder::new().has_headers(false).flexible(true).from_reader(text.as_bytes());
    reader.records().map(|rec| rec.map(|rec| rec.iter().map(String::from).collect())).collect()
}

/// `String::from_utf8`: the decoded text when the bytes are UTF-8, else `None`.
#[verifier::external_body]
fn utf8_string(bytes: &[u8]) -> (r: Option<String>)
    ensures
        match r {
            Some(s) => valid_utf8(bytes@) && s@ == decode_utf8(bytes@),
            None => !valid_utf8(bytes@),
        },
{
    String::from_utf8(bytes.to_vec()).ok()
}

/// `encoding_rs::SHIFT_JIS.decode`: the text and whether malformed sequences were replaced;
/// the result is named `sjis_decode_of` of the bytes.
#[verifier::external_body]
fn shift_jis_decode(bytes: &[u8]) -> (r: (String, bool))
    ensures
        (r.0@, r.1) == sjis_decode_of(bytes@),
{
    let (text, _, had_errors) = encoding_rs::SHIFT_JIS.decode(bytes);
    (text.into_owned(), had_errors)
}

// ---------------------------------------------------------------- docx

/// Whether a name is the given literal.
fn is_name(n: &String, lit: &str) -> (b: bool)
    ensures
        b == (n@ == lit@),
{
    *n == lit.to_owned()
}

/// Lines read from a docx body so far, the paragraph being read, and whether the reader is
/// inside a `<w:t>` text run.
#[verifier::ext_equal]
pub struct DocxState {
    pub lines: Seq<Seq<char>>,
    pub cur: Seq<char>,
    pub in_text: bool,
}

/// One event: `<w:t>` opens and `</w:t>` closes a text run; `<w:br>` and `<w:tab>` add a
/// space; `</w:p>` ends a line and adds an empty line as a paragraph boundary; text, and the
/// text of a resolvable reference (`ref_text`), count only inside a run.
pub open spec fn docx_step(st: DocxState, ev: XmlEventView) -> DocxState {
    match ev {
        XmlEventView::Start(n) => if n == "w:t"@ {
            DocxState { in_text: true, ..st }
        } else if n == "w:br"@ || n == "w:tab"@ {
            DocxState { cur: st.cur.push(' '), ..st }
        } else {
            st
        },
        XmlEventView::End(n) => if n == "w:t"@ {
            DocxState { in_text: false, ..st }
        } else if n == "w:p"@ {
            DocxState { lines: st.lines.push(st.cur).push(Seq::empty()), cur: Seq::empty(), in_text: st.in_text }
        } else {
            st
        },
        XmlEventView::Text(t) => if st.in_text {
            DocxState { cur: st.cur + t, ..st }
        } else {
            st
        },
        XmlEventView::Ref(n) => if st.in_text {
            match ref_text(n) {
                Some(t) => DocxState { cur: st.cur + t, ..st },
                None => st,
            }
        } else {
            st
        },
        XmlEventView::Other => st,
    }
}

pub open spec fn docx_fold(evs: Seq<XmlEventView>) -> DocxState
    decreases evs.len(),
{
    if evs.len() == 0 {
        DocxState { lines: Seq::empty(), cur: Seq::empty(), in_text: false }
    } else {
        docx_step(docx_fold(evs.drop_last()), evs.last())
    }
}

/// The text lines of a docx body, one per `<w:p>` paragraph, each followed by an empty line.
pub open spec fn docx_lines_spec(evs: Seq<XmlEventView>) -> Seq<Seq<char>> {
    docx_fold(evs).lines
}

/// Whether a `<w:t>` text run is open after the events: the last `<w:t>` or `</w:t>` among
/// them is an opening one.
pub open spec fn wt_open(evs: Seq<XmlEventView>) -> bool
    decreases evs.len(),
{
    if evs.len() == 0 {
        false
    } else {
        match evs.last() {
            XmlEventView::Start(n) => if n == "w:t"@ {
                true
            } else {
                wt_open(evs.drop_last())
            },
            XmlEventView::End(n) => if n == "w:t"@ {
                false
            } else {
                wt_open(evs.drop_last())
            },
            _ => wt_open(evs.drop_last()),
        }
    }
}

/// The docx reader state after the events, starting from `st`.
pub open spec fn docx_from(st: DocxState, evs: Seq<XmlEventView>) -> DocxState
    decreases evs.len(),
{
    if evs.len() == 0 {
        st
    } else {
        docx_step(docx_from(st, evs.drop_last()), evs.last())
    }
}

proof fn lemma_docx_in_text(evs: Seq<XmlEventView>)
    ensures
        docx_fold(evs).in_text == wt_open(evs),
    decreases evs.len(),
{
    if evs.len() > 0 {
        lemma_docx_in_text(evs.drop_last());
    }
}

proof fn lemma_docx_concat(x: Seq<XmlEventView>, y: Seq<XmlEventView>)
    ensures
        docx_fold(x + y) == docx_from(docx_fold(x), y),
    decreases y.len(),
{
    if y.len() == 0 {
        assert(x + y == x);
    } else {
        lemma_docx_concat(x, y.drop_last());
        assert((x + y).drop_last() == x + y.drop_last());
        assert((x + y).last() == y.last());
    }
}

/// Only text inside a `<w:t>` run reaches the docx lines: text that comes while no run is open
/// (deleted text, field codes, drawing offsets) changes nothing, wherever it stands.
pub proof fn law_docx_ignores_text_outside_runs(before: Seq<XmlEventView>, t: Seq<char>, after: Seq<XmlEventView>)
    requires
        !wt_open(before),
    ensures
        docx_lines_spec(before + seq![XmlEventView::Text(t)] + after) == docx_lines_spec(before + after),
{
    let one = seq![XmlEventView::Text(t)];
    lemma_docx_in_text(before);
    lemma_docx_concat(before, one);
    assert(one.drop_last() =~= Seq::<XmlEventView>::empty());
    assert(one.last() == XmlEventView::Text(t));
    assert(docx_from(docx_fold(before), Seq::<XmlEventView>::empty()) == docx_fold(before));
    assert(docx_from(docx_fold(before), one) == docx_step(docx_fold(before), XmlEventView::Text(t)));
    assert(docx_fold(before + one) == docx_fold(before));
    lemma_docx_concat(before + one, after);
    lemma_docx_concat(before, after);
}

/// Each `<w:p>` paragraph gives the text of its `<w:t>` runs as one line, then an empty line:
/// a paragraph of one run holding `t` adds exactly the lines `t` and the empty line.
pub proof fn law_docx_paragraph_gives_its_run_text(before: Seq<XmlEventView>, t: Seq<char>)
    requires
        !wt_open(before),
        docx_fold(before).cur.len() == 0,
    ensures
        docx_lines_spec(before + seq![
            XmlEventView::Start("w:p"@),
            XmlEventView::Start("w:t"@),
            XmlEventView::Text(t),
            XmlEventView::End("w:t"@),
            XmlEventView::End("w:p"@),
        ]) == docx_lines_spec(before) + seq![t, Seq::<char>::empty()],
{
    reveal_strlit("w:p");
    reveal_strlit("w:t");
    reveal_strlit("w:br");
    reveal_strlit("w:tab");
    let evs = seq![
        XmlEventView::Start("w:p"@),
        XmlEventView::Start("w:t"@),
        XmlEventView::Text(t),
        XmlEventView::End("w:t"@),
        XmlEventView::End("w:p"@),
    ];
    lemma_docx_in_text(before);
    lemma_docx_concat(before, evs);
    let s0 = docx_fold(before);
    assert("w:p"@ != "w:t"@ && "w:p"@ != "w:br"@ && "w:p"@ != "w:tab"@) by {
        assert("w:p"@[2] != "w:t"@[2]);
        assert("w:p"@.len() != "w:br"@.len());
        assert("w:p"@.len() != "w:tab"@.len());
    }
    let s1 = docx_step(s0, evs[0]);
    assert(s1 == s0);
    let s2 = docx_step(s1, evs[1]);
    assert(s2 == DocxState { in_text: true, ..s0 });
    let s3 = docx_step(s2, evs[2]);
    assert(s3 == DocxState { cur: s0.cur + t, in_text: true, ..s0 });
    let s4 = docx_step(s3, evs[3]);
    assert(s4 == DocxState { cur: s0.cur + t, in_text: false, ..s0 });
    let s5 = docx_step(s4, evs[4]);
    assert(s0.cur + t =~= t);
    assert(s5.lines == s0.lines.push(t).push(Seq::<char>::empty()));
    assert(evs.take(0) =~= Seq::<XmlEventView>::empty());
    assert(docx_from(s0, evs.take(0)) == s0);
    assert(evs.take(1).drop_last() == evs.take(0));
    assert(docx_from(s0, evs.take(1)) == s1);
    assert(evs.take(2).drop_last() == evs.take(1));
    assert(docx_from(s0, evs.take(2)) == s2);
    assert(evs.take(3).drop_last() == evs.take(2));
    assert(docx_from(s0, evs.take(3)) == s3);
    assert(evs.take(4).drop_last() == evs.take(3));
    assert(docx_from(s0, evs.take(4)) == s4);
    assert(evs.drop_last() == evs.take(4));
    assert(docx_from(s0, evs) == s5);
    assert(s0.lines.push(t).push(Seq::<char>::empty()) =~= s0.lines + seq![t, Seq::<char>::empty()]);
}

/// The text lines of the events of a docx body (`docx_lines_spec`).
pub fn docx_lines(events: &[XmlEvent]) -> (r: Vec<String>)
    ensures
        strings_view(r@) == docx_lines_spec(events_view(events@)),
{
    let ghost evs = events_view(events@);
    let mut lines: Vec<String> = Vec::new();
    let mut cur: Vec<char> = Vec::new();
    let mut in_text = false;
    let mut i: usize = 0;
    assert(strings_view(lines@) =~= Seq::<Seq<char>>::empty());
    assert(evs.take(0) =~= Seq::<XmlEventView>::empty());
    while i < events.len()
        invariant
            i <= events.len(),
            evs == events_view(events@),
            docx_fold(evs.take(i as int)) == (DocxState { lines: strings_view(lines@), cur: cur@, in_text }),
        decreases events.len() - i,
    {
        assert(evs.take(i + 1).drop_last() == evs.take(i as int));
        assert(evs.take(i + 1).last() == events@[i as int]@);
        let ghost before = lines@;
        match &events[i] {
            XmlEvent::Start(n) => {
                if is_name(n, "w:t") {
                    in_text = true;
                } else if is_name(n, "w:br") || is_name(n, "w:tab") {
                    cur.push(' ');
                }
            },
            XmlEvent::End(n) => {
                if is_name(n, "w:t") {
                    in_text = false;
                } else if is_name(n, "w:p") {
                    lines.push(string_of(cur.as_slice()));
                    lines.push(String::new());
                    assert(strings_view(lines@) =~= strings_view(before).push(cur@).push(Seq::empty()));
                    cur.clear();
                }
            },
            XmlEvent::Text(t) => {
                if in_text {
                    push_chars(&mut cur, chars_of(t.as_str()).as_slice());
                }
            },
            XmlEvent::Ref(n) => {
                if in_text {
                    match reference(n) {
                        Some(t) => push_chars(&mut cur, t.as_slice()),
                        None => {},
                    }
                }
            },
            XmlEvent::Other => {},
        }
        i = i + 1;
    }
    assert(evs.take(events.len() as int) == evs);
    lines
}

/// The text lines of `<w:p>` paragraphs of a docx body (`docx_lines_spec` of its events), or
/// the XML error.
pub fn docx_paragraph_lines(xml: &str) -> (r: Result<Vec<String>, OfficeError>)
    ensures
        match r {
            Ok(v) => xml_events_of(xml@) matches Some(evs) && strings_view(v@) == docx_lines_spec(evs),
            Err(e) => xml_events_of(xml@) is None && failure_of(e) == Failure::Xml,
        },
{
    match xml_events(xml) {
        Ok(evs) => Ok(docx_lines(evs.as_slice())),
        Err(e) => Err(OfficeError::Xml(e)),
    }
}

/// Blocks labelled `label` and the running number from 1.
pub open spec fn numbered_blocks(label: Seq<char>, paras: Seq<Seq<char>>) -> Seq<BlockView> {
    Seq::new(paras.len(), |i: int| BlockView { loc: label + decimal((i + 1) as nat), text: paras[i] })
}

/// The blocks of a docx body: its lines grouped into paragraphs, labelled `¶1`, `¶2`, ...
pub open spec fn docx_blocks_spec(evs: Seq<XmlEventView>) -> Seq<BlockView> {
    numbered_blocks("¶"@, paragraphs_spec(docx_lines_spec(evs)))
}

/// What reading a docx gives: its body's blocks, or the failure.
pub open spec fn docx_outcome(bytes: Seq<u8>) -> Result<Seq<BlockView>, Failure> {
    match zip_text_of(bytes, "word/document.xml"@) {
        None => Err(Failure::Zip),
        Some(xml) => match xml_events_of(xml) {
            None => Err(Failure::Xml),
            Some(evs) => Ok(docx_blocks_spec(evs)),
        },
    }
}

fn numbered(label: &str, paras: Vec<String>) -> (r: Vec<Block>)
    ensures
        blocks_view(r@) == numbered_blocks(label@, strings_view(paras@)),
{
    let ghost pv = strings_view(paras@);
    let mut out: Vec<Block> = Vec::new();
    let mut i: usize = 0;
    while i < paras.len()
        invariant
            i <= paras.len(),
            pv == strings_view(paras@),
            blocks_view(out@) == numbered_blocks(label@, pv).take(i as int),
        decreases paras.len() - i,
    {
        let mut loc = chars_of(label);
        push_decimal(&mut loc, (i + 1) as u64);
        let ghost before = out@;
        out.push(Block { loc: string_of(loc.as_slice()), text: paras[i].clone() });
        assert(blocks_view(out@) =~= blocks_view(before).push(out@.last()@));
        assert(numbered_blocks(label@, pv).take(i + 1) =~= numbered_blocks(label@, pv).take(i as int).push(
            numbered_blocks(label@, pv)[i as int],
        ));
        i = i + 1;
    }
    assert(numbered_blocks(label@, pv).take(paras.len() as int) =~= numbered_blocks(label@, pv));
    out
}

/// Reads the paragraphs of a docx document (`docx_outcome`).
pub fn extract_docx(bytes: &[u8]) -> (r: Result<Vec<Block>, OfficeError>)
    ensures
        outcome(r) == docx_outcome(bytes@),
{
    let xml = match zip_entry_text(bytes, "word/document.xml") {
        Ok(x) => x,
        Err(e) => return Err(OfficeError::Zip(e)),
    };
    let lines = docx_paragraph_lines(xml.as_str())?;
    let paras = lines_to_paragraphs(lines.as_slice());
    Ok(numbered("¶", paras))
}

// ---------------------------------------------------------------- pptx

/// Joins the next paragraph of a text frame: directly between CJK characters, else with a
/// space (`append_spec`).
pub fn join_cjk_aware(acc: &mut String, next: &str)
    ensures
        final(acc)@ == append_spec(old(acc)@, next@),
{
    let mut cs = chars_of(acc.as_str());
    append_line(&mut cs, chars_of(next).as_slice());
    *acc = string_of(cs.as_slice());
}

/// Text frames read from a slide so far, the frame and paragraph being read, and whether the
/// reader is inside an `<a:t>` run and inside a `<p:txBody>` frame.
#[verifier::ext_equal]
pub struct PptxState {
    pub texts: Seq<Seq<char>>,
    pub frame: Seq<char>,
    pub para: Seq<char>,
    pub in_text: bool,
    pub in_frame: bool,
}

/// One event: `<p:txBody>` starts a frame; `<a:t>` inside a frame opens a text run and
/// `</a:t>` closes it; `</a:p>` inside a frame joins the trimmed paragraph, if not empty, to
/// the frame; `</p:txBody>` ends the frame and keeps its trimmed text if not empty; text
/// counts only inside a run, as does the text of a resolvable reference (`ref_text`).
pub open spec fn pptx_step(st: PptxState, ev: XmlEventView) -> PptxState {
    match ev {
        XmlEventView::Start(n) => if n == "p:txBody"@ {
            PptxState { in_frame: true, frame: Seq::empty(), ..st }
        } else if n == "a:t"@ && st.in_frame {
            PptxState { in_text: true, ..st }
        } else {
            st
        },
        XmlEventView::End(n) => if n == "a:t"@ {
            PptxState { in_text: false, ..st }
        } else if n == "a:p"@ && st.in_frame {
            let p = trim_spec(st.para);
            PptxState {
                frame: if p.len() > 0 { append_spec(st.frame, p) } else { st.frame },
                para: Seq::empty(),
                ..st
            }
        } else if n == "p:txBody"@ {
            let t = trim_spec(st.frame);
            PptxState { in_frame: false, texts: if t.len() > 0 { st.texts.push(t) } else { st.texts }, ..st }
        } else {
            st
        },
        XmlEventView::Text(t) => if st.in_text {
            PptxState { para: st.para + t, ..st }
        } else {
            st
        },
        XmlEventView::Ref(n) => if st.in_text {
            match ref_text(n) {
                Some(t) => PptxState { para: st.para + t, ..st },
                None => st,
            }
        } else {
            st
        },
        XmlEventView::Other => st,
    }
}

pub open spec fn pptx_fold(evs: Seq<XmlEventView>) -> PptxState
    decreases evs.len(),
{
    if evs.len() == 0 {
        PptxState { texts: Seq::empty(), frame: Seq::empty(), para: Seq::empty(), in_text: false, in_frame: false }
    } else {
        pptx_step(pptx_fold(evs.drop_last()), evs.last())
    }
}

/// The texts of the text frames of a slide, in document order.
pub open spec fn pptx_texts_spec(evs: Seq<XmlEventView>) -> Seq<Seq<char>> {
    pptx_fold(evs).texts
}

/// The texts of the text frames of the events of a slide (`pptx_texts_spec`).
pub fn pptx_texts(events: &[XmlEvent]) -> (r: Vec<String>)
    ensures
        strings_view(r@) == pptx_texts_spec(events_view(events@)),
{
    let ghost evs = events_view(events@);
    let mut texts: Vec<String> = Vec::new();
    let mut frame = String::new();
    let mut para: Vec<char> = Vec::new();
    let mut in_text = false;
    let mut in_frame = false;
    let mut i: usize = 0;
    assert(strings_view(texts@) =~= Seq::<Seq<char>>::empty());
    assert(evs.take(0) =~= Seq::<XmlEventView>::empty());
    while i < events.len()
        invariant
            i <= events.len(),
            evs == events_view(events@),
            pptx_fold(evs.take(i as int)) == (PptxState {
                texts: strings_view(texts@),
                frame: frame@,
                para: para@,
                in_text,
                in_frame,
            }),
        decreases events.len() - i,
    {
        assert(evs.take(i + 1).drop_last() == evs.take(i as int));
        assert(evs.take(i + 1).last() == events@[i as int]@);
        let ghost before = texts@;
        match &events[i] {
            XmlEvent::Start(n) => {
                if is_name(n, "p:txBody") {
                    in_frame = true;
                    frame = String::new();
                } else if is_name(n, "a:t") && in_frame {
                    in_text = true;
                }
            },
            XmlEvent::End(n) => {
                if is_name(n, "a:t") {
                    in_text = false;
                } else if is_name(n, "a:p") && in_frame {
                    let p = trim_chars(para.as_slice());
                    if p.len() > 0 {
                        join_cjk_aware(&mut frame, string_of(p.as_slice()).as_str());
                    }
                    para.clear();
                } else if is_name(n, "p:txBody") {
                    in_frame = false;
                    let t = trim_chars(chars_of(frame.as_str()).as_slice());
                    if t.len() > 0 {
                        texts.push(string_of(t.as_slice()));
                        assert(strings_view(texts@) =~= strings_view(before).push(t@));
                    }
                }
            },
            XmlEvent::Text(t) => {
                if in_text {
                    push_chars(&mut para, chars_of(t.as_str()).as_slice());
                }
            },
            XmlEvent::Ref(n) => {
                if in_text {
                    match reference(n) {
                        Some(t) => push_chars(&mut para, t.as_slice()),
                        None => {},
                    }
                }
            },
            XmlEvent::Other => {},
        }
        i = i + 1;
    }
    assert(evs.take(events.len() as int) == evs);
    texts
}

/// The text frames of a slide (`pptx_texts_spec` of its events), or the XML error.
pub fn pptx_shape_texts(xml: &str) -> (r: Result<Vec<String>, OfficeError>)
    ensures
        match r {
            Ok(v) => xml_events_of(xml@) matches Some(evs) && strings_view(v@) == pptx_texts_spec(evs),
            Err(e) => xml_events_of(xml@) is None && failure_of(e) == Failure::Xml,
        },
{
    match xml_events(xml) {
        Ok(evs) => Ok(pptx_texts(evs.as_slice())),
        Err(e) => Err(OfficeError::Xml(e)),
    }
}

/// The blocks of one slide: its frame texts, labelled `s.N`.
pub open spec fn slide_blocks(no: u32, texts: Seq<Seq<char>>) -> Seq<BlockView> {
    texts.map_values(|t: Seq<char>| BlockView { loc: "s."@ + decimal(no as nat), text: t })
}

/// The blocks of the given slides in turn, or the failure of the first slide that cannot be
/// read.
pub open spec fn slides_outcome(bytes: Seq<u8>, slides: Seq<(u32, Seq<char>)>) -> Result<Seq<BlockView>, Failure>
    decreases slides.len(),
{
    if slides.len() == 0 {
        Ok(Seq::empty())
    } else {
        match slides_outcome(bytes, slides.drop_last()) {
            Err(f) => Err(f),
            Ok(bs) => match zip_text_of(bytes, slides.last().1) {
                None => Err(Failure::Zip),
                Some(xml) => match xml_events_of(xml) {
                    None => Err(Failure::Xml),
                    Some(evs) => Ok(bs + slide_blocks(slides.last().0, pptx_texts_spec(evs))),
                },
            },
        }
    }
}

/// What reading a pptx gives: the frames of its slides in slide order, or the failure.
pub open spec fn pptx_outcome(bytes: Seq<u8>) -> Result<Seq<BlockView>, Failure> {
    match zip_names_of(bytes) {
        None => Err(Failure::Zip),
        Some(names) => slides_outcome(bytes, sorted_slides(names)),
    }
}

proof fn lemma_slides_err(bytes: Seq<u8>, slides: Seq<(u32, Seq<char>)>, p: int, f: Failure)
    requires
        0 <= p <= slides.len(),
        slides_outcome(bytes, slides.take(p)) == Err::<Seq<BlockView>, Failure>(f),
    ensures
        slides_outcome(bytes, slides) == Err::<Seq<BlockView>, Failure>(f),
    decreases slides.len() - p,
{
    if p < slides.len() {
        assert(slides.take(p + 1).drop_last() == slides.take(p));
        lemma_slides_err(bytes, slides, p + 1, f);
    } else {
        assert(slides.take(p) == slides);
    }
}

/// Reads the text frames of a pptx document, slide by slide (`pptx_outcome`).
pub fn extract_pptx(bytes: &[u8]) -> (r: Result<Vec<Block>, OfficeError>)
    ensures
        outcome(r) == pptx_outcome(bytes@),
{
    let names = match zip_entry_names(bytes) {
        Ok(n) => n,
        Err(e) => return Err(OfficeError::Zip(e)),
    };
    let slides = slide_parts(names.as_slice());
    let ghost sv = slides_view(slides@);
    let mut blocks: Vec<Block> = Vec::new();
    let mut i: usize = 0;
    assert(sv.take(0) =~= Seq::<(u32, Seq<char>)>::empty());
    assert(blocks_view(blocks@) =~= Seq::<BlockView>::empty());
    while i < slides.len()
        invariant
            i <= slides.len(),
            sv == slides_view(slides@),
            sv == sorted_slides(strings_view(names@)),
            zip_names_of(bytes@) == Some(strings_view(names@)),
            slides_outcome(bytes@, sv.take(i as int)) == Ok::<Seq<BlockView>, Failure>(blocks_view(blocks@)),
        decreases slides.len() - i,
    {
        let no = slides[i].0;
        assert(sv.take(i + 1).drop_last() == sv.take(i as int));
        assert(sv.take(i + 1).last() == (no, slides@[i as int].1@));
        let xml = match zip_entry_text(bytes, slides[i].1.as_str()) {
            Ok(x) => x,
            Err(e) => {
                proof {
                    lemma_slides_err(bytes@, sv, i + 1, Failure::Zip);
                }
                return Err(OfficeError::Zip(e));
            },
        };
        let texts = match pptx_shape_texts(xml.as_str()) {
            Ok(t) => t,
            Err(e) => {
                proof {
                    lemma_slides_err(bytes@, sv, i + 1, Failure::Xml);
                }
                return Err(e);
            },
        };
        let mut loc = chars_of("s.");
        push_decimal(&mut loc, no as u64);
        let ghost start = blocks@;
        let ghost tv = strings_view(texts@);
        let mut k: usize = 0;
        while k < texts.len()
            invariant
                k <= texts.len(),
                tv == strings_view(texts@),
                loc@ == "s."@ + decimal(no as nat),
                blocks_view(blocks@) == blocks_view(start) + slide_blocks(no, tv.take(k as int)),
            decreases texts.len() - k,
        {
            let ghost before = blocks@;
            blocks.push(Block { loc: string_of(loc.as_slice()), text: texts[k].clone() });
            assert(blocks_view(blocks@) =~= blocks_view(before).push(blocks@.last()@));
            assert(slide_blocks(no, tv.take(k + 1)) =~= slide_blocks(no, tv.take(k as int)).push(
                BlockView { loc: "s."@ + decimal(no as nat), text: tv[k as int] },
            ));
            k = k + 1;
        }
        assert(tv.take(texts.len() as int) == tv);
        i = i + 1;
    }
    assert(sv.take(slides.len() as int) == sv);
    Ok(blocks)
}

// ---------------------------------------------------------------- xlsx / xlsm

/// The letter for `d < 26`: `A` for 0, `Z` for 25.
pub open spec fn letter(d: nat) -> char {
    ((65 + d) as u8) as char
}

/// The spreadsheet column label of a zero-based column index: `A`..`Z`, `AA`, `AB`, ...
pub open spec fn col_letter_spec(c: nat) -> Seq<char>
    decreases c,
{
    if c < 26 {
        seq![letter(c)]
    } else {
        col_letter_spec((c / 26 - 1) as nat).push(letter(c % 26))
    }
}

fn push_col_letter(out: &mut Vec<char>, c: u32)
    ensures
        final(out)@ == old(out)@ + col_letter_spec(c as nat),
    decreases c,
{
    if c >= 26 {
        push_col_letter(out, c / 26 - 1);
    }
    let d: u8 = (c % 26) as u8;
    out.push((d + 65) as char);
    proof {
        assert(col_letter_spec(c as nat) == if c < 26 {
            seq![letter(c as nat)]
        } else {
            col_letter_spec((c / 26 - 1) as nat).push(letter((c % 26) as nat))
        });
    }
}

/// The column label of a zero-based column index (`col_letter_spec`).
pub fn col_letter(c: u32) -> (r: String)
    ensures
        r@ == col_letter_spec(c as nat),
{
    let mut out: Vec<char> = Vec::new();
    push_col_letter(&mut out, c);
    string_of(out.as_slice())
}

/// The number a column label stands for in bijective base 26: `A` is 1, `Z` 26, `AA` 27.
pub open spec fn label_value(s: Seq<char>) -> int
    decreases s.len(),
{
    if s.len() == 0 {
        0
    } else {
        label_value(s.drop_last()) * 26 + ((s.last() as int) - 64)
    }
}

/// Column labels name columns one to one: the label of column `c` (zero-based) reads back as
/// `c + 1` in bijective base 26, so different columns never share a label.
pub proof fn law_col_letter_reads_back(c: nat)
    ensures
        label_value(col_letter_spec(c)) == c + 1,
        forall|i: int| 0 <= i < col_letter_spec(c).len() ==> 'A' <= #[trigger] col_letter_spec(c)[i] <= 'Z',
    decreases c,
{
    if c >= 26 {
        let q = (c / 26 - 1) as nat;
        law_col_letter_reads_back(q);
        let s = col_letter_spec(c);
        assert(s == col_letter_spec(q).push(letter(c % 26)));
        assert(s.drop_last() == col_letter_spec(q));
        assert((letter(c % 26) as int) == 65 + c % 26);
        assert(s.last() == letter(c % 26));
        assert((q + 1) * 26 + c % 26 + 1 == c + 1);
        assert(label_value(s) == label_value(col_letter_spec(q)) * 26 + ((s.last() as int) - 64));
        assert forall|i: int| 0 <= i < s.len() implies 'A' <= #[trigger] s[i] <= 'Z' by {
            if i < s.len() - 1 {
                assert(s[i] == col_letter_spec(q)[i]);
            }
        }
    } else {
        let s = col_letter_spec(c);
        assert((letter(c) as int) == 65 + c);
        assert(s.drop_last() =~= Seq::<char>::empty());
        assert(label_value(s) == label_value(s.drop_last()) * 26 + ((s.last() as int) - 64));
    }
}

/// The parts joined with a separator between each two.
pub open spec fn join_spec(parts: Seq<Seq<char>>, sep: Seq<char>) -> Seq<char>
    decreases parts.len(),
{
    if parts.len() == 0 {
        Seq::empty()
    } else if parts.len() == 1 {
        parts[0]
    } else {
        join_spec(parts.drop_last(), sep) + sep + parts.last()
    }
}

fn join_parts(parts: &[Vec<char>], sep: &str) -> (r: String)
    ensures
        r@ == join_spec(parts@.map_values(|p: Vec<char>| p@), sep@),
{
    let ghost pv = parts@.map_values(|p: Vec<char>| p@);
    let mut out: Vec<char> = Vec::new();
    let sc = chars_of(sep);
    let mut i: usize = 0;
    while i < parts.len()
        invariant
            i <= parts.len(),
            pv == parts@.map_values(|p: Vec<char>| p@),
            sc@ == sep@,
            out@ == join_spec(pv.take(i as int), sep@),
        decreases parts.len() - i,
    {
        assert(pv.take(i + 1).drop_last() == pv.take(i as int));
        assert(pv.take(i + 1).last() == parts@[i as int]@);
        if i > 0 {
            push_chars(&mut out, sc.as_slice());
        } else {
            assert(pv.take(1)[0] == parts@[0]@);
        }
        push_chars(&mut out, parts[i].as_slice());
        i = i + 1;
    }
    assert(pv.take(parts.len() as int) == pv);
    string_of(out.as_slice())
}

/// The formula of a cell at an absolute position, if the formula range has a non-empty one.
pub open spec fn formula_at(fs: Option<(Option<(u32, u32)>, Seq<Seq<Seq<char>>>)>, row: int, col: int) -> Option<Seq<char>> {
    match fs {
        None => None,
        Some((start, grid)) => {
            let (fr, fc) = match start {
                Some(p) => p,
                None => (0u32, 0u32),
            };
            let r = row - fr;
            let c = col - fc;
            if 0 <= r < grid.len() && 0 <= c < grid[r].len() && grid[r][c].len() > 0 {
                Some(grid[r][c])
            } else {
                None
            }
        },
    }
}

/// What a cell shows: `=` and its formula if it has one, else its value; trimmed, and
/// nothing if empty.
pub open spec fn shown_cell(formula: Option<Seq<char>>, value: Option<Seq<char>>) -> Option<Seq<char>> {
    let raw = match formula {
        Some(f) => Some("="@ + f),
        None => value,
    };
    match raw {
        None => None,
        Some(v) => if trim_spec(v).len() > 0 {
            Some(trim_spec(v))
        } else {
            None
        },
    }
}

/// The text that the formula range holds at an absolute position, empty or not; `None` outside
/// the range.
pub open spec fn formula_entry(fs: Option<(Option<(u32, u32)>, Seq<Seq<Seq<char>>>)>, row: int, col: int) -> Option<Seq<char>> {
    match fs {
        None => None,
        Some((start, grid)) => {
            let (fr, fc) = match start {
                Some(p) => p,
                None => (0u32, 0u32),
            };
            if fr <= row < fr + grid.len() && fc <= col < fc + grid[row - fr].len() {
                Some(grid[row - fr][col - fc])
            } else {
                None
            }
        },
    }
}

/// A cell shows its formula only if the formula text is non-empty: where the formula range
/// holds no text or an empty one, the cell shows its own value, trimmed (nothing if blank);
/// where it holds a non-empty formula `f`, the cell shows `=f`, trimmed.
pub proof fn law_empty_formula_shows_value(
    fs: Option<(Option<(u32, u32)>, Seq<Seq<Seq<char>>>)>,
    row: int,
    col: int,
    value: Option<Seq<char>>,
)
    ensures
        formula_at(fs, row, col) matches Some(f) ==> f.len() > 0,
        (formula_entry(fs, row, col) is None || formula_entry(fs, row, col) == Some(Seq::<char>::empty())) ==> shown_cell(
            formula_at(fs, row, col),
            value,
        ) == match value {
            None => None,
            Some(v) => if trim_spec(v).len() > 0 {
                Some(trim_spec(v))
            } else {
                None
            },
        },
        formula_entry(fs, row, col) matches Some(f) ==> (f.len() > 0 ==> shown_cell(formula_at(fs, row, col), value)
            == Some(trim_spec("="@ + f))),
{
    if let Some(f) = formula_entry(fs, row, col) {
        if f.len() > 0 {
            reveal_strlit("=");
            let g = "="@ + f;
            assert(g[0] == '=');
            assert(!is_ws('='));
            assert(trim_front(g) == g);
            lemma_trim_back_keeps_head(g);
        }
    }
}

/// Trimming the end of a text that starts with a non-space character keeps that character.
proof fn lemma_trim_back_keeps_head(g: Seq<char>)
    requires
        g.len() > 0,
        !is_ws(g[0]),
    ensures
        trim_back(g).len() > 0,
    decreases g.len(),
{
    if is_ws(g.last()) {
        assert(g.len() > 1);
        assert(g.drop_last()[0] == g[0]);
        lemma_trim_back_keeps_head(g.drop_last());
    }
}

/// The labelled parts `<column>: <shown>` of the first cells of a row at `(row, c0)`.
pub open spec fn row_parts(
    fs: Option<(Option<(u32, u32)>, Seq<Seq<Seq<char>>>)>,
    row: int,
    c0: int,
    cells: Seq<Option<Seq<char>>>,
) -> Seq<Seq<char>>
    decreases cells.len(),
{
    if cells.len() == 0 {
        Seq::empty()
    } else {
        let rest = row_parts(fs, row, c0, cells.drop_last());
        let col = c0 + cells.len() - 1;
        match shown_cell(formula_at(fs, row, col), cells.last()) {
            Some(t) => rest.push(col_letter_spec(col as nat) + ": "@ + t),
            None => rest,
        }
    }
}

/// The row blocks of the first rows of a sheet at `(r0, c0)`: each row with a shown cell is a
/// block labelled `sheet!row` (one-based) of its parts joined by ` ┃ `.
pub open spec fn row_blocks(
    sheet: Seq<char>,
    fs: Option<(Option<(u32, u32)>, Seq<Seq<Seq<char>>>)>,
    r0: int,
    c0: int,
    rows: Seq<Seq<Option<Seq<char>>>>,
) -> Seq<BlockView>
    decreases rows.len(),
{
    if rows.len() == 0 {
        Seq::empty()
    } else {
        let rest = row_blocks(sheet, fs, r0, c0, rows.drop_last());
        let row = r0 + rows.len() - 1;
        let parts = row_parts(fs, row, c0, rows.last());
        if parts.len() > 0 {
            rest.push(BlockView { loc: sheet + "!"@ + decimal((row + 1) as nat), text: join_spec(parts, " ┃ "@) })
        } else {
            rest
        }
    }
}

/// The formula of row `r + k`, column `c`.
pub open spec fn formula_below(fs: Option<(Option<(u32, u32)>, Seq<Seq<Seq<char>>>)>, r: int, k: int, c: int) -> Option<Seq<char>> {
    formula_at(fs, r + k, c)
}

proof fn lemma_row_parts_move(
    fs1: Option<(Option<(u32, u32)>, Seq<Seq<Seq<char>>>)>,
    fs2: Option<(Option<(u32, u32)>, Seq<Seq<Seq<char>>>)>,
    row1: int,
    row2: int,
    c0: int,
    cells: Seq<Option<Seq<char>>>,
)
    requires
        forall|c: int| #[trigger] formula_at(fs1, row1, c) == formula_at(fs2, row2, c),
    ensures
        row_parts(fs1, row1, c0, cells) == row_parts(fs2, row2, c0, cells),
    decreases cells.len(),
{
    if cells.len() > 0 {
        lemma_row_parts_move(fs1, fs2, row1, row2, c0, cells.drop_last());
        assert(formula_at(fs1, row1, c0 + cells.len() - 1) == formula_at(fs2, row2, c0 + cells.len() - 1));
    }
}

/// The label of absolute row `r` (zero-based) of a sheet: `sheet!{r + 1}`.
pub open spec fn row_label(sheet: Seq<char>, r: int) -> Seq<char> {
    sheet + "!"@ + decimal((r + 1) as nat)
}

/// Block `i` of `moved` has the text of block `i` of `blocks`, and its label names the row
/// `d` rows below the row that the label of `blocks[i]` names.
pub open spec fn block_shifted(sheet: Seq<char>, blocks: Seq<BlockView>, moved: Seq<BlockView>, d: int, i: int) -> bool {
    &&& moved[i].text == blocks[i].text
    &&& exists|r: int| r >= 0 && blocks[i].loc == #[trigger] row_label(sheet, r) && moved[i].loc == row_label(sheet, r + d)
}

/// `moved` is `blocks` with every row label moved `d` rows down and every text kept.
pub open spec fn relabelled(sheet: Seq<char>, blocks: Seq<BlockView>, moved: Seq<BlockView>, d: int) -> bool {
    &&& moved.len() == blocks.len()
    &&& forall|i: int| 0 <= i < blocks.len() ==> #[trigger] block_shifted(sheet, blocks, moved, d, i)
}

proof fn lemma_row_blocks_move(
    sheet: Seq<char>,
    fs1: Option<(Option<(u32, u32)>, Seq<Seq<Seq<char>>>)>,
    fs2: Option<(Option<(u32, u32)>, Seq<Seq<Seq<char>>>)>,
    r1: int,
    r2: int,
    c0: int,
    rows: Seq<Seq<Option<Seq<char>>>>,
)
    requires
        0 <= r1,
        0 <= r2,
        forall|k: int, c: int| 0 <= k < rows.len() ==> #[trigger] formula_below(fs1, r1, k, c) == formula_below(fs2, r2, k, c),
    ensures
        relabelled(sheet, row_blocks(sheet, fs1, r1, c0, rows), row_blocks(sheet, fs2, r2, c0, rows), r2 - r1),
    decreases rows.len(),
{
    if rows.len() > 0 {
        let k = rows.len() - 1;
        lemma_row_blocks_move(sheet, fs1, fs2, r1, r2, c0, rows.drop_last());
        assert forall|c: int| #[trigger] formula_at(fs1, r1 + k, c) == formula_at(fs2, r2 + k, c) by {
            assert(formula_below(fs1, r1, k, c) == formula_below(fs2, r2, k, c));
        }
        lemma_row_parts_move(fs1, fs2, r1 + k, r2 + k, c0, rows.last());
        let a1 = row_blocks(sheet, fs1, r1, c0, rows.drop_last());
        let a2 = row_blocks(sheet, fs2, r2, c0, rows.drop_last());
        let parts = row_parts(fs1, r1 + k, c0, rows.last());
        if parts.len() > 0 {
            let b1 = BlockView { loc: row_label(sheet, r1 + k), text: join_spec(parts, " ┃ "@) };
            let b2 = BlockView { loc: row_label(sheet, r2 + k), text: join_spec(parts, " ┃ "@) };
            let x1 = a1.push(b1);
            let x2 = a2.push(b2);
            assert(row_blocks(sheet, fs1, r1, c0, rows) == x1);
            assert(row_blocks(sheet, fs2, r2, c0, rows) == x2);
            assert forall|i: int| 0 <= i < x1.len() implies #[trigger] block_shifted(sheet, x1, x2, r2 - r1, i) by {
                if i < a1.len() {
                    assert(block_shifted(sheet, a1, a2, r2 - r1, i));
                    let r = choose|r: int| r >= 0 && a1[i].loc == #[trigger] row_label(sheet, r) && a2[i].loc == row_label(sheet, r + (r2 - r1));
                    assert(x1[i] == a1[i]);
                    assert(x2[i] == a2[i]);
                    assert(x1[i].loc == row_label(sheet, r) && x2[i].loc == row_label(sheet, r + (r2 - r1)));
                } else {
                    assert(x1[i] == b1);
                    assert(x2[i] == b2);
                    assert(r1 + k + (r2 - r1) == r2 + k);
                    assert(x1[i].loc == row_label(sheet, r1 + k) && x2[i].loc == row_label(sheet, (r1 + k) + (r2 - r1)));
                }
            }
        } else {
            assert forall|i: int| 0 <= i < a1.len() implies #[trigger] block_shifted(sheet, a1, a2, r2 - r1, i) by {
                assert(block_shifted(sheet, a1, a2, r2 - r1, i));
            }
        }
    }
}

/// Labels moved by no row at all leave the blocks as they are.
proof fn lemma_relabelled_same(sheet: Seq<char>, blocks: Seq<BlockView>, moved: Seq<BlockView>)
    requires
        relabelled(sheet, blocks, moved, 0),
    ensures
        moved == blocks,
{
    assert forall|i: int| 0 <= i < blocks.len() implies moved[i] == blocks[i] by {
        assert(block_shifted(sheet, blocks, moved, 0, i));
        let r = choose|r: int| r >= 0 && blocks[i].loc == #[trigger] row_label(sheet, r) && moved[i].loc == row_label(sheet, r + 0);
        assert(r + 0 == r);
    }
    assert(moved =~= blocks);
}

proof fn lemma_row_blocks_concat(
    sheet: Seq<char>,
    fs: Option<(Option<(u32, u32)>, Seq<Seq<Seq<char>>>)>,
    r0: int,
    c0: int,
    a: Seq<Seq<Option<Seq<char>>>>,
    b: Seq<Seq<Option<Seq<char>>>>,
)
    ensures
        row_blocks(sheet, fs, r0, c0, a + b) == row_blocks(sheet, fs, r0, c0, a) + row_blocks(sheet, fs, r0 + a.len(), c0, b),
    decreases b.len(),
{
    if b.len() == 0 {
        assert(a + b == a);
        assert(row_blocks(sheet, fs, r0, c0, a) + row_blocks(sheet, fs, r0 + a.len(), c0, b) == row_blocks(sheet, fs, r0, c0, a));
    } else {
        lemma_row_blocks_concat(sheet, fs, r0, c0, a, b.drop_last());
        assert((a + b).drop_last() == a + b.drop_last());
        assert((a + b).last() == b.last());
        assert(r0 + (a + b).len() - 1 == r0 + a.len() + b.len() - 1);
        let x = row_blocks(sheet, fs, r0, c0, a);
        let y = row_blocks(sheet, fs, r0 + a.len(), c0, b.drop_last());
        let row = r0 + a.len() + b.len() - 1;
        let parts = row_parts(fs, row, c0, b.last());
        if parts.len() > 0 {
            let blk = BlockView { loc: sheet + "!"@ + decimal((row + 1) as nat), text: join_spec(parts, " ┃ "@) };
            assert((x + y).push(blk) == x + y.push(blk));
        }
    }
}

/// Inserting a row into a sheet only renames the rows below it: with the formulas moving
/// along with their rows, the sheet's blocks after the insertion are its blocks above the
/// inserted row, unchanged, then the inserted row's own block (at most one, labelled with that
/// row), then the blocks of every row below, each with its text kept and its label naming the
/// next row down. No block text changes.
pub proof fn law_row_insertion_renames_rows(
    sheet: Seq<char>,
    fs1: Option<(Option<(u32, u32)>, Seq<Seq<Seq<char>>>)>,
    fs2: Option<(Option<(u32, u32)>, Seq<Seq<Seq<char>>>)>,
    r0: u32,
    c0: u32,
    rows: Seq<Seq<Option<Seq<char>>>>,
    k: int,
    x: Seq<Option<Seq<char>>>,
)
    requires
        0 <= k <= rows.len(),
        forall|j: int, c: int| 0 <= j < k ==> #[trigger] formula_below(fs2, r0 as int, j, c) == formula_below(fs1, r0 as int, j, c),
        forall|j: int, c: int|
            0 <= j < rows.len() - k ==> #[trigger] formula_below(fs2, r0 + k + 1, j, c) == formula_below(fs1, r0 + k, j, c),
    ensures
        sheet_blocks_spec(sheet, fs1, Some((Some((r0, c0)), rows))) == sheet_blocks_spec(sheet, fs1, Some((Some((r0, c0)), rows.take(k))))
            + row_blocks(sheet, fs1, r0 + k, c0 as int, rows.skip(k)),
        sheet_blocks_spec(sheet, fs2, Some((Some((r0, c0)), rows.insert(k, x)))) == sheet_blocks_spec(
            sheet,
            fs1,
            Some((Some((r0, c0)), rows.take(k))),
        ) + row_blocks(sheet, fs2, r0 + k, c0 as int, seq![x]) + row_blocks(sheet, fs2, r0 + k + 1, c0 as int, rows.skip(k)),
        row_blocks(sheet, fs2, r0 + k, c0 as int, seq![x]).len() <= 1,
        forall|i: int|
            0 <= i < row_blocks(sheet, fs2, r0 + k, c0 as int, seq![x]).len() ==> (#[trigger] row_blocks(sheet, fs2, r0 + k, c0 as int, seq![x])[i]).loc
                == row_label(sheet, r0 + k),
        relabelled(
            sheet,
            row_blocks(sheet, fs1, r0 + k, c0 as int, rows.skip(k)),
            row_blocks(sheet, fs2, r0 + k + 1, c0 as int, rows.skip(k)),
            1,
        ),
{
    let r = r0 as int;
    let c = c0 as int;
    let pre = rows.take(k);
    let suf = rows.skip(k);
    let heading = BlockView { loc: sheet, text: "【シート】"@ + sheet };
    assert(rows == pre + suf);
    lemma_row_blocks_concat(sheet, fs1, r, c, pre, suf);
    assert(seq![heading] + (row_blocks(sheet, fs1, r, c, pre) + row_blocks(sheet, fs1, r + k, c, suf)) == seq![heading]
        + row_blocks(sheet, fs1, r, c, pre) + row_blocks(sheet, fs1, r + k, c, suf));
    assert(rows.insert(k, x) == pre + seq![x] + suf);
    lemma_row_blocks_concat(sheet, fs2, r, c, pre + seq![x], suf);
    lemma_row_blocks_concat(sheet, fs2, r, c, pre, seq![x]);
    assert((pre + seq![x]).len() == k + 1);
    lemma_row_blocks_move(sheet, fs1, fs2, r, r, c, pre);
    lemma_relabelled_same(sheet, row_blocks(sheet, fs1, r, c, pre), row_blocks(sheet, fs2, r, c, pre));
    assert forall|j: int, cc: int| 0 <= j < suf.len() implies #[trigger] formula_below(fs1, r + k, j, cc) == formula_below(fs2, r + k + 1, j, cc) by {
        assert(formula_below(fs2, r + k + 1, j, cc) == formula_below(fs1, r + k, j, cc));
    }
    lemma_row_blocks_move(sheet, fs1, fs2, r + k, r + k + 1, c, suf);
    assert((r + k + 1) - (r + k) == 1);
    let p2 = row_blocks(sheet, fs2, r, c, pre);
    let m2 = row_blocks(sheet, fs2, r + k, c, seq![x]);
    let s2 = row_blocks(sheet, fs2, r + k + 1, c, suf);
    assert(seq![heading] + (p2 + m2 + s2) == seq![heading] + p2 + m2 + s2);
    assert(seq![x].drop_last() =~= Seq::<Seq<Option<Seq<char>>>>::empty());
    assert(seq![x].last() == x);
    assert(row_blocks(sheet, fs2, r + k, c, seq![x].drop_last()) == Seq::<BlockView>::empty());
    let parts = row_parts(fs2, r + k, c, x);
    if parts.len() > 0 {
        assert(m2 == seq![BlockView { loc: row_label(sheet, r + k), text: join_spec(parts, " ┃ "@) }]);
    } else {
        assert(m2 == Seq::<BlockView>::empty());
    }
}

/// The blocks of a sheet: the heading `【シート】name`, then its rows.
pub open spec fn sheet_blocks_spec(
    sheet: Seq<char>,
    fs: Option<(Option<(u32, u32)>, Seq<Seq<Seq<char>>>)>,
    vs: Option<(Option<(u32, u32)>, Seq<Seq<Option<Seq<char>>>>)>,
) -> Seq<BlockView> {
    let heading = BlockView { loc: sheet, text: "【シート】"@ + sheet };
    match vs {
        None => seq![heading],
        Some((start, rows)) => {
            let (r0, c0) = match start {
                Some(p) => p,
                None => (0u32, 0u32),
            };
            seq![heading] + row_blocks(sheet, fs, r0 as int, c0 as int, rows)
        },
    }
}

/// The value range's rows and columns have row numbers and column indices that fit in `u32`.
pub open spec fn range_fits(vs: Option<(Option<(u32, u32)>, Seq<Seq<Option<Seq<char>>>>)>) -> bool {
    match vs {
        None => true,
        Some((start, rows)) => {
            let (r0, c0) = match start {
                Some(p) => p,
                None => (0u32, 0u32),
            };
            &&& r0 + rows.len() <= u32::MAX
            &&& forall|i: int| 0 <= i < rows.len() ==> c0 + (#[trigger] rows[i]).len() <= u32::MAX + 1
        },
    }
}

pub open spec fn opt_formula_view(fs: Option<(Option<(u32, u32)>, Vec<Vec<String>>)>) -> Option<(Option<(u32, u32)>, Seq<Seq<Seq<char>>>)> {
    match fs {
        Some((start, rows)) => Some((start, grid_view(rows@))),
        None => None,
    }
}

pub open spec fn opt_values_view(vs: Option<(Option<(u32, u32)>, Vec<Vec<Option<String>>>)>) -> Option<(Option<(u32, u32)>, Seq<Seq<Option<Seq<char>>>>)> {
    match vs {
        Some((start, rows)) => Some((start, opt_grid_view(rows@))),
        None => None,
    }
}

fn formula_lookup(fs: &Option<(Option<(u32, u32)>, Vec<Vec<String>>)>, row: u32, col: u32) -> (r: Option<String>)
    ensures
        opt_string_of(r) == formula_at(opt_formula_view(*fs), row as int, col as int),
{
    match fs {
        None => None,
        Some((start, grid)) => {
            let (fr, fc) = match start {
                Some(p) => *p,
                None => (0u32, 0u32),
            };
            if row < fr || col < fc {
                return None;
            }
            let r = (row - fr) as usize;
            let c = (col - fc) as usize;
            if r < grid.len() {
                assert(grid_view(grid@)[r as int] == strings_view(grid@[r as int]@));
                if c < grid[r].len() && !grid[r][c].as_str().is_empty() {
                    return Some(grid[r][c].clone());
                }
            }
            None
        },
    }
}

pub open spec fn opt_string_of(s: Option<String>) -> Option<Seq<char>> {
    match s {
        Some(t) => Some(t@),
        None => None,
    }
}

fn shown(formula: Option<String>, value: &Option<String>) -> (r: Option<Vec<char>>)
    ensures
        match r {
            Some(v) => shown_cell(opt_string_of(formula), opt_string_of(*value)) == Some(v@),
            None => shown_cell(opt_string_of(formula), opt_string_of(*value)) is None,
        },
{
    let raw: Option<Vec<char>> = match formula {
        Some(f) => {
            let mut v = chars_of("=");
            push_chars(&mut v, chars_of(f.as_str()).as_slice());
            Some(v)
        },
        None => match value {
            Some(x) => Some(chars_of(x.as_str())),
            None => None,
        },
    };
    match raw {
        None => None,
        Some(v) => {
            let t = trim_chars(v.as_slice());
            if t.len() > 0 {
                Some(t)
            } else {
                None
            }
        },
    }
}

fn push_row_parts(
    parts: &mut Vec<Vec<char>>,
    fs: &Option<(Option<(u32, u32)>, Vec<Vec<String>>)>,
    row: u32,
    c0: u32,
    cells: &Vec<Option<String>>,
)
    requires
        old(parts)@.len() == 0,
        c0 + cells@.len() <= u32::MAX + 1,
    ensures
        final(parts)@.map_values(|p: Vec<char>| p@) == row_parts(opt_formula_view(*fs), row as int, c0 as int, opt_strings_view(cells@)),
{
    let ghost cv = opt_strings_view(cells@);
    let mut ci: usize = 0;
    while ci < cells.len()
        invariant
            ci <= cells.len(),
            c0 + cells@.len() <= u32::MAX + 1,
            cv == opt_strings_view(cells@),
            parts@.map_values(|p: Vec<char>| p@) == row_parts(opt_formula_view(*fs), row as int, c0 as int, cv.take(ci as int)),
        decreases cells.len() - ci,
    {
        assert(cv.take(ci + 1).drop_last() == cv.take(ci as int));
        assert(cv.take(ci + 1).last() == cv[ci as int]);
        let col: u32 = c0 + ci as u32;
        let f = formula_lookup(fs, row, col);
        match shown(f, &cells[ci]) {
            Some(t) => {
                let mut part: Vec<char> = Vec::new();
                push_col_letter(&mut part, col);
                push_chars(&mut part, chars_of(": ").as_slice());
                push_chars(&mut part, t.as_slice());
                let ghost before = parts@;
                parts.push(part);
                assert(parts@.map_values(|p: Vec<char>| p@) =~= before.map_values(|p: Vec<char>| p@).push(part@));
            },
            None => {},
        }
        ci = ci + 1;
    }
    assert(cv.take(cells.len() as int) == cv);
}

/// The blocks of a sheet (`sheet_blocks_spec`) from its formula range and value range.
pub fn sheet_blocks(
    sheet: &str,
    fs: &Option<(Option<(u32, u32)>, Vec<Vec<String>>)>,
    vs: &Option<(Option<(u32, u32)>, Vec<Vec<Option<String>>>)>,
) -> (r: Vec<Block>)
    requires
        range_fits(opt_values_view(*vs)),
    ensures
        blocks_view(r@) == sheet_blocks_spec(sheet@, opt_formula_view(*fs), opt_values_view(*vs)),
{
    let mut head = chars_of("【シート】");
    push_chars(&mut head, chars_of(sheet).as_slice());
    let mut blocks: Vec<Block> = Vec::new();
    blocks.push(Block { loc: sheet.to_owned(), text: string_of(head.as_slice()) });
    match vs {
        None => {
            assert(blocks_view(blocks@) =~= seq![BlockView { loc: sheet@, text: "【シート】"@ + sheet@ }]);
            blocks
        },
        Some((start, rows)) => {
            let (r0, c0) = match start {
                Some(p) => *p,
                None => (0u32, 0u32),
            };
            let ghost rv = opt_grid_view(rows@);
            let ghost head_blocks = blocks_view(blocks@);
            assert(head_blocks =~= seq![BlockView { loc: sheet@, text: "【シート】"@ + sheet@ }]);
            let mut ri: usize = 0;
            while ri < rows.len()
                invariant
                    ri <= rows.len(),
                    rv == opt_grid_view(rows@),
                    r0 + rows@.len() <= u32::MAX,
                    forall|i: int| 0 <= i < rows@.len() ==> c0 + (#[trigger] rv[i]).len() <= u32::MAX + 1,
                    blocks_view(blocks@) == head_blocks + row_blocks(
                        sheet@,
                        opt_formula_view(*fs),
                        r0 as int,
                        c0 as int,
                        rv.take(ri as int),
                    ),
                decreases rows.len() - ri,
            {
                assert(rv.take(ri + 1).drop_last() == rv.take(ri as int));
                assert(rv.take(ri + 1).last() == rv[ri as int]);
                assert(rv[ri as int] == opt_strings_view(rows@[ri as int]@));
                let row: u32 = r0 + ri as u32;
                let mut parts: Vec<Vec<char>> = Vec::new();
                push_row_parts(&mut parts, fs, row, c0, &rows[ri]);
                if parts.len() > 0 {
                    let mut loc = chars_of(sheet);
                    push_chars(&mut loc, chars_of("!").as_slice());
                    push_decimal(&mut loc, (row + 1) as u64);
                    let text = join_parts(parts.as_slice(), " ┃ ");
                    let ghost before = blocks@;
                    blocks.push(Block { loc: string_of(loc.as_slice()), text });
                    assert(blocks_view(blocks@) =~= blocks_view(before).push(blocks@.last()@));
                }
                ri = ri + 1;
            }
            assert(rv.take(rows.len() as int) == rv);
            blocks
        },
    }
}

fn fits(vs: &Option<(Option<(u32, u32)>, Vec<Vec<Option<String>>>)>) -> (b: bool)
    ensures
        b == range_fits(opt_values_view(*vs)),
{
    match vs {
        None => true,
        Some((start, rows)) => {
            let (r0, c0) = match start {
                Some(p) => *p,
                None => (0u32, 0u32),
            };
            let ghost rv = opt_grid_view(rows@);
            if rows.len() as u64 > 0xffff_ffffu64 - r0 as u64 {
                return false;
            }
            let mut i: usize = 0;
            while i < rows.len()
                invariant
                    i <= rows.len(),
                    rv == opt_grid_view(rows@),
                    opt_values_view(*vs) == Some((*start, rv)),
                    (r0, c0) == (match *start {
                        Some(p) => p,
                        None => (0u32, 0u32),
                    }),
                    r0 + rows@.len() <= u32::MAX,
                    forall|k: int| 0 <= k < i ==> c0 + (#[trigger] rv[k]).len() <= u32::MAX + 1,
                decreases rows.len() - i,
            {
                assert(rv[i as int] == opt_strings_view(rows@[i as int]@));
                assert(rv[i as int].len() == rows@[i as int]@.len());
                if rows[i].len() as u64 > 0x1_0000_0000u64 - c0 as u64 {
                    return false;
                }
                i = i + 1;
            }
            true
        },
    }
}

/// The blocks of the given sheets in turn, or `SheetTooLarge` at the first sheet whose
/// range does not fit.
pub open spec fn sheets_outcome(bytes: Seq<u8>, names: Seq<Seq<char>>) -> Result<Seq<BlockView>, Failure>
    decreases names.len(),
{
    if names.len() == 0 {
        Ok(Seq::empty())
    } else {
        match sheets_outcome(bytes, names.drop_last()) {
            Err(f) => Err(f),
            Ok(bs) => {
                let vs = xlsx_values_of(bytes, names.last());
                if range_fits(vs) {
                    Ok(bs + sheet_blocks_spec(names.last(), xlsx_formulas_of(bytes, names.last()), vs))
                } else {
                    Err(Failure::SheetTooLarge)
                }
            },
        }
    }
}

/// What reading a workbook gives: the blocks of its sheets in workbook order, or the failure.
pub open spec fn xlsx_outcome(bytes: Seq<u8>) -> Result<Seq<BlockView>, Failure> {
    match xlsx_sheets_of(bytes) {
        None => Err(Failure::Xlsx),
        Some(names) => sheets_outcome(bytes, names),
    }
}

/// Reads the rows of every sheet of a workbook (`xlsx_outcome`).
pub fn extract_xlsx(bytes: &[u8]) -> (r: Result<Vec<Block>, OfficeError>)
    ensures
        outcome(r) == xlsx_outcome(bytes@),
{
    let sheets = match xlsx_sheet_names(bytes) {
        Ok(s) => s,
        Err(e) => return Err(OfficeError::Xlsx(e)),
    };
    let ghost nv = strings_view(sheets@);
    let mut blocks: Vec<Block> = Vec::new();
    let mut i: usize = 0;
    assert(nv.take(0) =~= Seq::<Seq<char>>::empty());
    assert(blocks_view(blocks@) =~= Seq::<BlockView>::empty());
    while i < sheets.len()
        invariant
            i <= sheets.len(),
            nv == strings_view(sheets@),
            xlsx_sheets_of(bytes@) == Some(nv),
            sheets_outcome(bytes@, nv.take(i as int)) == Ok::<Seq<BlockView>, Failure>(blocks_view(blocks@)),
        decreases sheets.len() - i,
    {
        assert(nv.take(i + 1).drop_last() == nv.take(i as int));
        assert(nv.take(i + 1).last() == sheets@[i as int]@);
        let name = sheets[i].as_str();
        let fs = xlsx_formula_grid(bytes, name);
        let vs = xlsx_value_grid(bytes, name);
        if !fits(&vs) {
            proof {
                lemma_sheets_err(bytes@, nv, i + 1);
            }
            return Err(OfficeError::SheetTooLarge);
        }
        let mut sb = sheet_blocks(name, &fs, &vs);
        let ghost before = blocks@;
        let ghost added = sb@;
        blocks.append(&mut sb);
        assert(blocks_view(blocks@) =~= blocks_view(before) + blocks_view(added));
        i = i + 1;
    }
    assert(nv.take(sheets.len() as int) == nv);
    Ok(blocks)
}

proof fn lemma_sheets_err(bytes: Seq<u8>, names: Seq<Seq<char>>, p: int)
    requires
        0 <= p <= names.len(),
        sheets_outcome(bytes, names.take(p)) == Err::<Seq<BlockView>, Failure>(Failure::SheetTooLarge),
    ensures
        sheets_outcome(bytes, names) == Err::<Seq<BlockView>, Failure>(Failure::SheetTooLarge),
    decreases names.len() - p,
{
    if p < names.len() {
        assert(names.take(p + 1).drop_last() == names.take(p));
        lemma_sheets_err(bytes, names, p + 1);
    } else {
        assert(names.take(p) == names);
    }
}

// ---------------------------------------------------------------- csv

/// The text without a leading byte order mark.
pub open spec fn strip_bom(s: Seq<char>) -> Seq<char> {
    if s.len() > 0 && s[0] == '\u{feff}' {
        s.drop_first()
    } else {
        s
    }
}

/// The text of CSV bytes: UTF-8 when they are valid UTF-8, else Shift_JIS unless malformed,
/// without a leading byte order mark; `None` when neither decodes.
pub open spec fn csv_text_spec(bytes: Seq<u8>) -> Option<Seq<char>> {
    if valid_utf8(bytes) {
        Some(strip_bom(decode_utf8(bytes)))
    } else {
        let (t, bad) = sjis_decode_of(bytes);
        if bad {
            None
        } else {
            Some(strip_bom(t))
        }
    }
}

/// Decodes CSV bytes (`csv_text_spec`).
pub fn read_csv_text(bytes: &[u8]) -> (r: Result<String, OfficeError>)
    ensures
        match r {
            Ok(s) => csv_text_spec(bytes@) == Some(s@),
            Err(e) => csv_text_spec(bytes@) is None && failure_of(e) == Failure::CsvEncoding,
        },
{
    let decoded = match utf8_string(bytes) {
        Some(text) => text,
        None => {
            let (text, had_errors) = shift_jis_decode(bytes);
            if had_errors {
                return Err(OfficeError::CsvEncoding);
            }
            text
        },
    };
    let cs = chars_of(decoded.as_str());
    if cs.len() > 0 && cs[0] == '\u{feff}' {
        let rest = &cs.as_slice()[1..cs.len()];
        assert(rest@ == cs@.drop_first());
        Ok(string_of(rest))
    } else {
        Ok(decoded)
    }
}

/// The labelled parts `<column>: <field>` of the non-empty trimmed fields of a record.
pub open spec fn csv_parts(fields: Seq<Seq<char>>) -> Seq<Seq<char>>
    decreases fields.len(),
{
    if fields.len() == 0 {
        Seq::empty()
    } else {
        let rest = csv_parts(fields.drop_last());
        let t = trim_spec(fields.last());
        if t.len() > 0 {
            rest.push(col_letter_spec(((fields.len() - 1) as u32) as nat) + ": "@ + t)
        } else {
            rest
        }
    }
}

/// The blocks of CSV records: each record with a non-empty field is a block labelled `csv:N`
/// (one-based) of its parts joined by ` ┃ `.
pub open spec fn csv_blocks_spec(records: Seq<Seq<Seq<char>>>) -> Seq<BlockView>
    decreases records.len(),
{
    if records.len() == 0 {
        Seq::empty()
    } else {
        let rest = csv_blocks_spec(records.drop_last());
        let parts = csv_parts(records.last());
        if parts.len() > 0 {
            rest.push(BlockView { loc: "csv:"@ + decimal(records.len() as nat), text: join_spec(parts, " ┃ "@) })
        } else {
            rest
        }
    }
}

/// What reading CSV bytes gives: the blocks of its records, or the failure.
pub open spec fn csv_outcome(bytes: Seq<u8>) -> Result<Seq<BlockView>, Failure> {
    match csv_text_spec(bytes) {
        None => Err(Failure::CsvEncoding),
        Some(text) => match csv_rows_of(text) {
            None => Err(Failure::Csv),
            Some(records) => Ok(csv_blocks_spec(records)),
        },
    }
}

fn csv_record_parts(fields: &Vec<String>) -> (r: Vec<Vec<char>>)
    ensures
        r@.map_values(|p: Vec<char>| p@) == csv_parts(strings_view(fields@)),
{
    let ghost fv = strings_view(fields@);
    let mut parts: Vec<Vec<char>> = Vec::new();
    let mut ci: usize = 0;
    assert(fv.take(0) =~= Seq::<Seq<char>>::empty());
    while ci < fields.len()
        invariant
            ci <= fields.len(),
            fv == strings_view(fields@),
            parts@.map_values(|p: Vec<char>| p@) == csv_parts(fv.take(ci as int)),
        decreases fields.len() - ci,
    {
        assert(fv.take(ci + 1).drop_last() == fv.take(ci as int));
        assert(fv.take(ci + 1).last() == fields@[ci as int]@);
        let t = trim_chars(chars_of(fields[ci].as_str()).as_slice());
        if t.len() > 0 {
            let mut part: Vec<char> = Vec::new();
            push_col_letter(&mut part, ci as u32);
            push_chars(&mut part, chars_of(": ").as_slice());
            push_chars(&mut part, t.as_slice());
            let ghost before = parts@;
            parts.push(part);
            assert(parts@.map_values(|p: Vec<char>| p@) =~= before.map_values(|p: Vec<char>| p@).push(part@));
        }
        ci = ci + 1;
    }
    assert(fv.take(fields.len() as int) == fv);
    parts
}

/// The blocks of CSV records (`csv_blocks_spec`).
pub fn csv_blocks(records: &[Vec<String>]) -> (r: Vec<Block>)
    ensures
        blocks_view(r@) == csv_blocks_spec(grid_view(records@)),
{
    let ghost rv = grid_view(records@);
    let mut blocks: Vec<Block> = Vec::new();
    let mut ri: usize = 0;
    assert(rv.take(0) =~= Seq::<Seq<Seq<char>>>::empty());
    assert(blocks_view(blocks@) =~= Seq::<BlockView>::empty());
    while ri < records.len()
        invariant
            ri <= records.len(),
            rv == grid_view(records@),
            blocks_view(blocks@) == csv_blocks_spec(rv.take(ri as int)),
        decreases records.len() - ri,
    {
        assert(rv.take(ri + 1).drop_last() == rv.take(ri as int));
        assert(rv.take(ri + 1).last() == strings_view(records@[ri as int]@));
        let parts = csv_record_parts(&records[ri]);
        if parts.len() > 0 {
            let mut loc = chars_of("csv:");
            push_decimal(&mut loc, (ri + 1) as u64);
            let text = join_parts(parts.as_slice(), " ┃ ");
            let ghost before = blocks@;
            blocks.push(Block { loc: string_of(loc.as_slice()), text });
            assert(blocks_view(blocks@) =~= blocks_view(before).push(blocks@.last()@));
        }
        ri = ri + 1;
    }
    assert(rv.take(records.len() as int) == rv);
    blocks
}

/// Reads the records of CSV bytes (`csv_outcome`).
pub fn extract_csv(bytes: &[u8]) -> (r: Result<Vec<Block>, OfficeError>)
    ensures
        outcome(r) == csv_outcome(bytes@),
{
    let text = read_csv_text(bytes)?;
    match csv_records(text.as_str()) {
        Ok(records) => Ok(csv_blocks(records.as_slice())),
        Err(e) => Err(OfficeError::Csv(e)),
    }
}

// ---------------------------------------------------------------- formats

/// The document formats read by [`extract_office`].
#[derive(Debug, Clone, Copy, PartialEq, Eq, Structural)]
pub enum OfficeFormat {
    Docx,
    Pptx,
    Xlsx,
    Csv,
}

/// ASCII lower case of a character; other characters are kept.
pub open spec fn ascii_lower(c: char) -> char {
    if 'A' <= c && c <= 'Z' {
        ((c as u8) + 32) as char
    } else {
        c
    }
}

pub open spec fn lower_spec(s: Seq<char>) -> Seq<char> {
    s.map_values(|c: char| ascii_lower(c))
}

/// The format named by a file extension, in any ASCII case.
pub open spec fn format_of(ext: Seq<char>) -> Option<OfficeFormat> {
    let l = lower_spec(ext);
    if l == "docx"@ {
        Some(OfficeFormat::Docx)
    } else if l == "pptx"@ {
        Some(OfficeFormat::Pptx)
    } else if l == "xlsx"@ || l == "xlsm"@ {
        Some(OfficeFormat::Xlsx)
    } else if l == "csv"@ {
        Some(OfficeFormat::Csv)
    } else {
        None
    }
}

pub open spec fn opt_format_of(ext: Option<&str>) -> Option<OfficeFormat> {
    match ext {
        Some(e) => format_of(e@),
        None => None,
    }
}

/// The ASCII lower case of a text (`lower_spec`).
pub fn to_ascii_lower(s: &str) -> (r: String)
    ensures
        r@ == lower_spec(s@),
{
    let cs = chars_of(s);
    let mut out: Vec<char> = Vec::new();
    let mut i: usize = 0;
    while i < cs.len()
        invariant
            i <= cs.len(),
            cs@ == s@,
            out@ == lower_spec(cs@.take(i as int)),
        decreases cs.len() - i,
    {
        let c = cs[i];
        let l = if 'A' <= c && c <= 'Z' { ((c as u8) + 32) as char } else { c };
        out.push(l);
        assert(lower_spec(cs@.take(i + 1)) =~= lower_spec(cs@.take(i as int)).push(l));
        i = i + 1;
    }
    assert(cs@.take(cs.len() as int) == cs@);
    string_of(out.as_slice())
}

/// The format named by a file extension (`format_of`), `None` without an extension.
pub fn office_format(ext: Option<&str>) -> (r: Option<OfficeFormat>)
    ensures
        r == opt_format_of(ext),
{
    match ext {
        None => None,
        Some(e) => {
            let l = to_ascii_lower(e);
            if l == "docx".to_owned() {
                Some(OfficeFormat::Docx)
            } else if l == "pptx".to_owned() {
                Some(OfficeFormat::Pptx)
            } else if l == "xlsx".to_owned() || l == "xlsm".to_owned() {
                Some(OfficeFormat::Xlsx)
            } else if l == "csv".to_owned() {
                Some(OfficeFormat::Csv)
            } else {
                None
            }
        },
    }
}

/// Whether a file extension is `pdf` in any ASCII case.
pub fn is_pdf_extension(ext: Option<&str>) -> (r: bool)
    ensures
        r == (ext matches Some(e) && lower_spec(e@) == "pdf"@),
{
    match ext {
        None => false,
        Some(e) => to_ascii_lower(e) == "pdf".to_owned(),
    }
}

/// What reading a document of the given extension gives.
pub open spec fn office_outcome(ext: Option<&str>, bytes: Seq<u8>) -> Result<Seq<BlockView>, Failure> {
    match opt_format_of(ext) {
        Some(OfficeFormat::Docx) => docx_outcome(bytes),
        Some(OfficeFormat::Pptx) => pptx_outcome(bytes),
        Some(OfficeFormat::Xlsx) => xlsx_outcome(bytes),
        Some(OfficeFormat::Csv) => csv_outcome(bytes),
        None => Err(Failure::Unsupported),
    }
}

/// Reads a document by the format its extension names (`office_outcome`); an unsupported
/// extension is reported in lower case.
pub fn extract_office(ext: Option<&str>, bytes: &[u8]) -> (r: Result<Vec<Block>, OfficeError>)
    ensures
        outcome(r) == office_outcome(ext, bytes@),
        opt_format_of(ext) is None ==> (r matches Err(OfficeError::Unsupported(x)) && match (x, ext) {
            (Some(l), Some(e)) => l@ == lower_spec(e@),
            (None, None) => true,
            _ => false,
        }),
{
    match office_format(ext) {
        Some(OfficeFormat::Docx) => extract_docx(bytes),
        Some(OfficeFormat::Pptx) => extract_pptx(bytes),
        Some(OfficeFormat::Xlsx) => extract_xlsx(bytes),
        Some(OfficeFormat::Csv) => extract_csv(bytes),
        None => Err(OfficeError::Unsupported(
            match ext {
                Some(e) => Some(to_ascii_lower(e)),
                None => None,
            },
        )),
    }
}

} // verus!
