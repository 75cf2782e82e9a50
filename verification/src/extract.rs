//! Paragraph blocks: the unit of comparison, and the grouping of extracted text lines
//! into paragraphs.
use vstd::prelude::*;
use crate::text::{is_ws, is_whitespace, chars_of, string_of, strings_view, decimal, push_decimal};

verus! {

/// The smallest unit of comparison: a location label and the block's text.
#[derive(Debug, Clone)]
pub struct Block {
    /// Location label ("p.3" for a PDF page, "s.12" for a slide, "Sheet!7" for a row, ...).
    pub loc: String,
    pub text: String,
}

/// The mathematical content of a [`Block`].
pub struct BlockView {
    pub loc: Seq<char>,
    pub text: Seq<char>,
}

impl View for Block {
    type V = BlockView;

    open spec fn view(&self) -> BlockView {
        BlockView { loc: self.loc@, text: self.text@ }
    }
}

/// The views of a list of blocks.
pub open spec fn blocks_view(s: Seq<Block>) -> Seq<BlockView> {
    s.map_values(|b: Block| b@)
}

// ---------------------------------------------------------------- characters and trimming

/// CJK punctuation, kana, ideographs and full-width forms: lines ending and starting with
/// these are joined without a space.
pub open spec fn cjk(c: char) -> bool {
    ||| ('\u{3000}' <= c && c <= '\u{303F}')
    ||| ('\u{3040}' <= c && c <= '\u{30FF}')
    ||| ('\u{31F0}' <= c && c <= '\u{31FF}')
    ||| ('\u{3400}' <= c && c <= '\u{4DBF}')
    ||| ('\u{4E00}' <= c && c <= '\u{9FFF}')
    ||| ('\u{F900}' <= c && c <= '\u{FAFF}')
    ||| ('\u{FF00}' <= c && c <= '\u{FFEF}')
}

/// Whether `c` is a CJK character in the sense of [`cjk`].
pub fn is_cjk(c: char) -> (r: bool)
    ensures
        r == cjk(c),
{
    ('\u{3000}' <= c && c <= '\u{303F}') || ('\u{3040}' <= c && c <= '\u{30FF}') || ('\u{31F0}' <= c
        && c <= '\u{31FF}') || ('\u{3400}' <= c && c <= '\u{4DBF}') || ('\u{4E00}' <= c && c
        <= '\u{9FFF}') || ('\u{F900}' <= c && c <= '\u{FAFF}') || ('\u{FF00}' <= c && c <= '\u{FFEF}')
}

/// The text without its leading white space.
pub open spec fn trim_front(s: Seq<char>) -> Seq<char>
    decreases s.len(),
{
    if s.len() > 0 && is_ws(s[0]) {
        trim_front(s.drop_first())
    } else {
        s
    }
}

/// The text without its trailing white space.
pub open spec fn trim_back(s: Seq<char>) -> Seq<char>
    decreases s.len(),
{
    if s.len() > 0 && is_ws(s.last()) {
        trim_back(s.drop_last())
    } else {
        s
    }
}

/// The text without leading and trailing white space, as `str::trim` gives it.
pub open spec fn trim_spec(s: Seq<char>) -> Seq<char> {
    trim_back(trim_front(s))
}

/// Removes leading and trailing white space.
pub fn trim_chars(cs: &[char]) -> (r: Vec<char>)
    ensures
        r@ == trim_spec(cs@),
{
    let n = cs.len();
    let mut i: usize = 0;
    assert(cs@.subrange(0, n as int) == cs@);
    while i < n && is_whitespace(cs[i])
        invariant
            i <= n,
            n == cs@.len(),
            trim_front(cs@) == trim_front(cs@.subrange(i as int, n as int)),
        decreases n - i,
    {
        assert(cs@.subrange(i as int, n as int).drop_first() == cs@.subrange(i + 1, n as int));
        i = i + 1;
    }
    assert(trim_front(cs@.subrange(i as int, n as int)) == cs@.subrange(i as int, n as int));
    let mut j: usize = n;
    while j > i && is_whitespace(cs[j - 1])
        invariant
            i <= j <= n,
            n == cs@.len(),
            trim_spec(cs@) == trim_back(cs@.subrange(i as int, j as int)),
        decreases j - i,
    {
        assert(cs@.subrange(i as int, j as int).drop_last() == cs@.subrange(i as int, j - 1));
        j = j - 1;
    }
    assert(trim_back(cs@.subrange(i as int, j as int)) == cs@.subrange(i as int, j as int));
    let mut out: Vec<char> = Vec::new();
    let mut k: usize = i;
    while k < j
        invariant
            i <= k <= j,
            j <= n,
            n == cs@.len(),
            out@ == cs@.subrange(i as int, k as int),
        decreases j - k,
    {
        out.push(cs[k]);
        assert(cs@.subrange(i as int, k + 1) == cs@.subrange(i as int, k as int).push(cs@[k as int]));
        k = k + 1;
    }
    out
}

/// A paragraph of one to four ASCII digits only (a page number).
pub open spec fn page_number_spec(t: Seq<char>) -> bool {
    &&& 1 <= t.len() <= 4
    &&& forall|i: int| 0 <= i < t.len() ==> '0' <= #[trigger] t[i] <= '9'
}

/// Whether the paragraph is only a page number.
pub fn is_page_number(t: &[char]) -> (r: bool)
    ensures
        r == page_number_spec(t@),
{
    if t.len() < 1 || t.len() > 4 {
        return false;
    }
    let mut i: usize = 0;
    while i < t.len()
        invariant
            i <= t.len(),
            forall|k: int| 0 <= k < i ==> '0' <= #[trigger] t@[k] <= '9',
        decreases t.len() - i,
    {
        if !('0' <= t[i] && t[i] <= '9') {
            return false;
        }
        i = i + 1;
    }
    true
}

// ---------------------------------------------------------------- dot leaders

/// A character of a dot leader: `.`, `…` or the full-width `．`.
pub open spec fn leader_dot(c: char) -> bool {
    c == '.' || c == '\u{2026}' || c == '\u{FF0E}'
}

/// What a run of `dots` leader characters becomes: two ellipses for three or more, else
/// that many `.`.
pub open spec fn dots_out(dots: nat) -> Seq<char> {
    if dots >= 3 {
        seq!['\u{2026}', '\u{2026}']
    } else {
        Seq::new(dots, |i: int| '.')
    }
}

/// The text collapsed so far and the length of the leader run still open.
pub open spec fn collapse_fold(s: Seq<char>) -> (Seq<char>, nat)
    decreases s.len(),
{
    if s.len() == 0 {
        (Seq::empty(), 0)
    } else {
        let (out, dots) = collapse_fold(s.drop_last());
        if leader_dot(s.last()) {
            (out, dots + 1)
        } else {
            (out + dots_out(dots) + seq![s.last()], 0)
        }
    }
}

/// The text with every run of three or more leader dots collapsed to `……`, and shorter runs
/// written as plain `.`.
pub open spec fn collapse_spec(s: Seq<char>) -> Seq<char> {
    let (out, dots) = collapse_fold(s);
    out + dots_out(dots)
}

fn push_dots(out: &mut Vec<char>, dots: usize)
    ensures
        final(out)@ == old(out)@ + dots_out(dots as nat),
{
    if dots >= 3 {
        out.push('\u{2026}');
        out.push('\u{2026}');
    } else {
        let mut k: usize = 0;
        while k < dots
            invariant
                k <= dots,
                dots < 3,
                out@ == old(out)@ + Seq::new(k as nat, |i: int| '.'),
            decreases dots - k,
        {
            out.push('.');
            assert(Seq::new((k + 1) as nat, |i: int| '.') == Seq::new(k as nat, |i: int| '.').push('.'));
            k = k + 1;
        }
    }
}

/// Collapses table-of-contents dot leaders.
pub fn collapse_dot_leaders(t: &[char]) -> (r: Vec<char>)
    ensures
        r@ == collapse_spec(t@),
{
    let mut out: Vec<char> = Vec::new();
    let mut dots: usize = 0;
    let mut i: usize = 0;
    while i < t.len()
        invariant
            i <= t.len(),
            dots <= i,
            collapse_fold(t@.take(i as int)) == (out@, dots as nat),
        decreases t.len() - i,
    {
        let c = t[i];
        assert(t@.take(i + 1).drop_last() == t@.take(i as int));
        if c == '.' || c == '\u{2026}' || c == '\u{FF0E}' {
            dots = dots + 1;
        } else {
            push_dots(&mut out, dots);
            dots = 0;
            out.push(c);
        }
        i = i + 1;
    }
    assert(t@.take(t.len() as int) == t@);
    push_dots(&mut out, dots);
    out
}

// ---------------------------------------------------------------- paragraph boundaries

/// Bullets, brackets and marks that open a new paragraph.
pub open spec fn bullet_char(c: char) -> bool {
    ||| c == '・' || c == '■' || c == '●' || c == '○' || c == '◆' || c == '▶' || c == '※'
    ||| c == '【' || c == '〔' || c == '(' || c == '\u{FF08}' || c == '<' || c == '\u{FF1C}' || c == '「'
}

pub open spec fn ascii_digit(c: char) -> bool {
    '0' <= c && c <= '9'
}

pub open spec fn wide_digit(c: char) -> bool {
    '\u{FF10}' <= c && c <= '\u{FF19}'
}

pub open spec fn kanji_numeral(c: char) -> bool {
    c == '一' || c == '二' || c == '三' || c == '四' || c == '五' || c == '六' || c == '七' || c == '八'
        || c == '九' || c == '十'
}

/// A line that opens a new paragraph: it starts with a bullet or bracket, a circled number
/// ①..⑳, a digit (ASCII or full-width), or 第 followed by a digit or kanji numeral.
pub open spec fn starts_new_block_spec(line: Seq<char>) -> bool {
    line.len() > 0 && {
        let c = line[0];
        ||| bullet_char(c)
        ||| ('①' <= c && c <= '⑳')
        ||| ascii_digit(c)
        ||| wide_digit(c)
        ||| (c == '第' && line.len() > 1 && (ascii_digit(line[1]) || wide_digit(line[1]) || kanji_numeral(
            line[1],
        )))
    }
}

/// A short heading line (at most 25 characters): 第 followed by a digit, or a line starting with
/// an ASCII digit that does not end with 。.
pub open spec fn heading_spec(line: Seq<char>) -> bool {
    &&& line.len() <= 25
    &&& line.len() > 0
    &&& {
        ||| (line[0] == '第' && line.len() > 1 && (ascii_digit(line[1]) || wide_digit(line[1])))
        ||| (ascii_digit(line[0]) && line.last() != '。')
    }
}

/// Text that ends a paragraph: its last character is 。, a colon (ASCII or full-width), 】 or 」.
pub open spec fn ends_block_spec(cur: Seq<char>) -> bool {
    cur.len() > 0 && {
        let c = cur.last();
        c == '。' || c == ':' || c == '\u{FF1A}' || c == '】' || c == '」'
    }
}

/// Joins a line to the text: directly between two CJK characters, else with one space.
pub open spec fn append_spec(cur: Seq<char>, line: Seq<char>) -> Seq<char> {
    if cur.len() == 0 {
        line
    } else if line.len() > 0 && cjk(cur.last()) && cjk(line[0]) {
        cur + line
    } else {
        cur.push(' ') + line
    }
}

/// Whether the line opens a new paragraph (`starts_new_block_spec`).
pub fn starts_new_block(line: &[char]) -> (r: bool)
    ensures
        r == starts_new_block_spec(line@),
{
    if line.len() == 0 {
        return false;
    }
    let c = line[0];
    if c == '・' || c == '■' || c == '●' || c == '○' || c == '◆' || c == '▶' || c == '※' || c == '【'
        || c == '〔' || c == '(' || c == '\u{FF08}' || c == '<' || c == '\u{FF1C}' || c == '「' {
        return true;
    }
    if '①' <= c && c <= '⑳' {
        return true;
    }
    if ('0' <= c && c <= '9') || ('\u{FF10}' <= c && c <= '\u{FF19}') {
        return true;
    }
    if c == '第' && line.len() > 1 {
        let d = line[1];
        if ('0' <= d && d <= '9') || ('\u{FF10}' <= d && d <= '\u{FF19}') || d == '一' || d == '二' || d
            == '三' || d == '四' || d == '五' || d == '六' || d == '七' || d == '八' || d == '九' || d
            == '十' {
            return true;
        }
    }
    false
}

/// Whether the line is a short heading (`heading_spec`).
pub fn is_heading(line: &[char]) -> (r: bool)
    ensures
        r == heading_spec(line@),
{
    if line.len() > 25 || line.len() == 0 {
        return false;
    }
    let c = line[0];
    if c == '第' {
        line.len() > 1 && (('0' <= line[1] && line[1] <= '9') || ('\u{FF10}' <= line[1] && line[1]
            <= '\u{FF19}'))
    } else if '0' <= c && c <= '9' {
        line[line.len() - 1] != '。'
    } else {
        false
    }
}

/// Whether the text so far ends a paragraph (`ends_block_spec`).
pub fn ends_block(cur: &[char]) -> (r: bool)
    ensures
        r == ends_block_spec(cur@),
{
    if cur.len() == 0 {
        return false;
    }
    let c = cur[cur.len() - 1];
    c == '。' || c == ':' || c == '\u{FF1A}' || c == '】' || c == '」'
}

/// Appends a line to the paragraph being built (`append_spec`).
pub fn append_line(cur: &mut Vec<char>, line: &[char])
    ensures
        final(cur)@ == append_spec(old(cur)@, line@),
{
    if cur.len() == 0 {
        push_chars(cur, line);
        return;
    }
    let last_cjk = is_cjk(cur[cur.len() - 1]);
    let next_cjk = line.len() > 0 && is_cjk(line[0]);
    if !(last_cjk && next_cjk) {
        cur.push(' ');
    }
    push_chars(cur, line);
}

/// Appends all of `src`.
pub fn push_chars(out: &mut Vec<char>, src: &[char])
    ensures
        final(out)@ == old(out)@ + src@,
{
    let mut i: usize = 0;
    while i < src.len()
        invariant
            i <= src.len(),
            out@ == old(out)@ + src@.take(i as int),
        decreases src.len() - i,
    {
        out.push(src[i]);
        assert(src@.take(i + 1) == src@.take(i as int).push(src@[i as int]));
        i = i + 1;
    }
    assert(src@.take(src.len() as int) == src@);
}

// ---------------------------------------------------------------- lines to paragraphs

/// Closes the paragraph being built: its trimmed text is kept, with dot leaders collapsed,
/// unless it is empty or only a page number.
pub open spec fn flush_para(paras: Seq<Seq<char>>, cur: Seq<char>) -> Seq<Seq<char>> {
    let t = trim_spec(cur);
    if t.len() > 0 && !page_number_spec(t) {
        paras.push(collapse_spec(t))
    } else {
        paras
    }
}

/// One line: a blank line closes the paragraph; a line that opens a new paragraph, or follows
/// text that ends one, closes the paragraph before it is appended; a heading line is a
/// paragraph of its own.
pub open spec fn para_step(st: (Seq<Seq<char>>, Seq<char>), raw: Seq<char>) -> (Seq<Seq<char>>, Seq<char>) {
    let (paras, cur) = st;
    let line = trim_spec(raw);
    if line.len() == 0 {
        (flush_para(paras, cur), Seq::empty())
    } else {
        let (p1, c1) = if cur.len() > 0 && (starts_new_block_spec(line) || ends_block_spec(cur)) {
            (flush_para(paras, cur), Seq::<char>::empty())
        } else {
            (paras, cur)
        };
        let c2 = append_spec(c1, line);
        if heading_spec(line) {
            (flush_para(p1, c2), Seq::empty())
        } else {
            (p1, c2)
        }
    }
}

pub open spec fn para_fold(lines: Seq<Seq<char>>) -> (Seq<Seq<char>>, Seq<char>)
    decreases lines.len(),
{
    if lines.len() == 0 {
        (Seq::empty(), Seq::empty())
    } else {
        para_step(para_fold(lines.drop_last()), lines.last())
    }
}

/// The paragraphs of a list of lines.
pub open spec fn paragraphs_spec(lines: Seq<Seq<char>>) -> Seq<Seq<char>> {
    let (paras, cur) = para_fold(lines);
    flush_para(paras, cur)
}

fn flush(paras: &mut Vec<String>, cur: &mut Vec<char>)
    ensures
        strings_view(final(paras)@) == flush_para(strings_view(old(paras)@), old(cur)@),
        final(cur)@.len() == 0,
{
    let t = trim_chars(cur.as_slice());
    let ghost before = paras@;
    if t.len() > 0 && !is_page_number(t.as_slice()) {
        let c = collapse_dot_leaders(t.as_slice());
        paras.push(string_of(c.as_slice()));
        assert(strings_view(paras@) =~= strings_view(before).push(collapse_spec(t@)));
    }
    cur.clear();
}

/// Groups lines into paragraphs (`paragraphs_spec`).
pub fn lines_to_paragraphs(lines: &[String]) -> (r: Vec<String>)
    ensures
        strings_view(r@) == paragraphs_spec(strings_view(lines@)),
{
    let ghost ls = strings_view(lines@);
    let mut paras: Vec<String> = Vec::new();
    let mut cur: Vec<char> = Vec::new();
    let mut i: usize = 0;
    while i < lines.len()
        invariant
            i <= lines.len(),
            ls == strings_view(lines@),
            para_fold(ls.take(i as int)) == (strings_view(paras@), cur@),
        decreases lines.len() - i,
    {
        assert(ls.take(i + 1).drop_last() == ls.take(i as int));
        assert(ls.take(i + 1).last() == lines@[i as int]@);
        let raw = chars_of(lines[i].as_str());
        let line = trim_chars(raw.as_slice());
        if line.len() == 0 {
            flush(&mut paras, &mut cur);
        } else {
            if cur.len() > 0 && (starts_new_block(line.as_slice()) || ends_block(cur.as_slice())) {
                flush(&mut paras, &mut cur);
            }
            append_line(&mut cur, line.as_slice());
            if is_heading(line.as_slice()) {
                flush(&mut paras, &mut cur);
            }
        }
        proof {
            assert(cur@ =~= para_fold(ls.take(i + 1)).1);
        }
        i = i + 1;
    }
    assert(ls.take(lines.len() as int) == ls);
    flush(&mut paras, &mut cur);
    paras
}

// ---------------------------------------------------------------- paragraph properties

/// A paragraph that the extraction keeps: non-empty, and not a bare page number.
pub open spec fn kept_paragraph(p: Seq<char>) -> bool {
    p.len() > 0 && !page_number_spec(p)
}

pub open spec fn has_non_digit(s: Seq<char>) -> bool {
    exists|i: int| 0 <= i < s.len() && !('0' <= #[trigger] s[i] <= '9')
}

proof fn lemma_collapse_without_dots(s: Seq<char>)
    requires
        forall|i: int| 0 <= i < s.len() ==> !leader_dot(#[trigger] s[i]),
    ensures
        collapse_fold(s) == (s, 0nat),
    decreases s.len(),
{
    if s.len() > 0 {
        lemma_collapse_without_dots(s.drop_last());
        assert(!leader_dot(s[s.len() - 1]));
        assert(dots_out(0) =~= Seq::<char>::empty());
        assert(s.drop_last() + dots_out(0) + seq![s.last()] =~= s);
    }
}

proof fn lemma_dots_out_non_digit(d: nat)
    requires
        d > 0,
    ensures
        dots_out(d).len() > 0,
        !('0' <= dots_out(d)[0] <= '9'),
{
}

proof fn lemma_collapse_fold_marks_dots(s: Seq<char>)
    ensures
        (exists|i: int| 0 <= i < s.len() && leader_dot(#[trigger] s[i])) ==> collapse_fold(s).1 > 0 || has_non_digit(
            collapse_fold(s).0,
        ),
        s.len() > 0 ==> collapse_fold(s).1 > 0 || collapse_fold(s).0.len() > 0,
    decreases s.len(),
{
    if s.len() > 0 {
        let t = s.drop_last();
        lemma_collapse_fold_marks_dots(t);
        let (out, dots) = collapse_fold(t);
        let c = s.last();
        if !leader_dot(c) {
            let nout = out + dots_out(dots) + seq![c];
            assert(collapse_fold(s) == (nout, 0nat));
            if exists|i: int| 0 <= i < s.len() && leader_dot(#[trigger] s[i]) {
                let i = choose|i: int| 0 <= i < s.len() && leader_dot(#[trigger] s[i]);
                assert(i < s.len() - 1);
                assert(t[i] == s[i]);
                if dots > 0 {
                    lemma_dots_out_non_digit(dots);
                    assert(nout[out.len() as int] == dots_out(dots)[0]);
                } else {
                    let k = choose|k: int| 0 <= k < out.len() && !('0' <= #[trigger] out[k] <= '9');
                    assert(nout[k] == out[k]);
                }
            }
        }
    }
}

proof fn lemma_collapse_keeps(t: Seq<char>)
    requires
        kept_paragraph(t),
    ensures
        kept_paragraph(collapse_spec(t)),
{
    lemma_collapse_fold_marks_dots(t);
    let (out, dots) = collapse_fold(t);
    let c = collapse_spec(t);
    assert(c == out + dots_out(dots));
    if exists|i: int| 0 <= i < t.len() && leader_dot(#[trigger] t[i]) {
        if dots > 0 {
            lemma_dots_out_non_digit(dots);
            assert(c[out.len() as int] == dots_out(dots)[0]);
        } else {
            let k = choose|k: int| 0 <= k < out.len() && !('0' <= #[trigger] out[k] <= '9');
            assert(c[k] == out[k]);
        }
    } else {
        lemma_collapse_without_dots(t);
        assert(dots_out(0) =~= Seq::<char>::empty());
        assert(c =~= t);
    }
    if dots > 0 {
        lemma_dots_out_non_digit(dots);
    }
}

proof fn lemma_flush_keeps(paras: Seq<Seq<char>>, cur: Seq<char>)
    requires
        forall|i: int| 0 <= i < paras.len() ==> kept_paragraph(#[trigger] paras[i]),
    ensures
        forall|i: int| 0 <= i < flush_para(paras, cur).len() ==> kept_paragraph(#[trigger] flush_para(paras, cur)[i]),
{
    let t = trim_spec(cur);
    if t.len() > 0 && !page_number_spec(t) {
        lemma_collapse_keeps(t);
        let r = flush_para(paras, cur);
        assert forall|i: int| 0 <= i < r.len() implies kept_paragraph(#[trigger] r[i]) by {
            if i < paras.len() {
                assert(r[i] == paras[i]);
            }
        }
    }
}

proof fn lemma_fold_keeps(lines: Seq<Seq<char>>)
    ensures
        forall|i: int| 0 <= i < para_fold(lines).0.len() ==> kept_paragraph(#[trigger] para_fold(lines).0[i]),
    decreases lines.len(),
{
    if lines.len() > 0 {
        lemma_fold_keeps(lines.drop_last());
        let (paras, cur) = para_fold(lines.drop_last());
        let line = trim_spec(lines.last());
        lemma_flush_keeps(paras, cur);
        if line.len() > 0 {
            let (p1, c1) = if cur.len() > 0 && (starts_new_block_spec(line) || ends_block_spec(cur)) {
                (flush_para(paras, cur), Seq::<char>::empty())
            } else {
                (paras, cur)
            };
            lemma_flush_keeps(p1, append_spec(c1, line));
        }
    }
}

/// Every paragraph that the extraction yields is non-empty and is not a bare page number (one
/// to four ASCII digits), whatever the lines.
pub proof fn law_paragraphs_are_kept_text(lines: Seq<Seq<char>>)
    ensures
        forall|i: int| 0 <= i < paragraphs_spec(lines).len() ==> kept_paragraph(#[trigger] paragraphs_spec(lines)[i]),
{
    lemma_fold_keeps(lines);
    lemma_flush_keeps(para_fold(lines).0, para_fold(lines).1);
}

/// The paragraph state after the lines, starting from `st`.
pub open spec fn fold_from(st: (Seq<Seq<char>>, Seq<char>), lines: Seq<Seq<char>>) -> (Seq<Seq<char>>, Seq<char>)
    decreases lines.len(),
{
    if lines.len() == 0 {
        st
    } else {
        para_step(fold_from(st, lines.drop_last()), lines.last())
    }
}

proof fn lemma_fold_concat(x: Seq<Seq<char>>, y: Seq<Seq<char>>)
    ensures
        para_fold(x + y) == fold_from(para_fold(x), y),
    decreases y.len(),
{
    if y.len() == 0 {
        assert(x + y == x);
    } else {
        lemma_fold_concat(x, y.drop_last());
        assert((x + y).drop_last() == x + y.drop_last());
        assert((x + y).last() == y.last());
    }
}

proof fn lemma_flush_shift(p: Seq<Seq<char>>, q: Seq<Seq<char>>, cur: Seq<char>)
    ensures
        flush_para(p + q, cur) == p + flush_para(q, cur),
{
    let t = trim_spec(cur);
    if t.len() > 0 && !page_number_spec(t) {
        assert((p + q).push(collapse_spec(t)) == p + q.push(collapse_spec(t)));
    }
}

proof fn lemma_fold_shift(p: Seq<Seq<char>>, q: Seq<Seq<char>>, cur: Seq<char>, lines: Seq<Seq<char>>)
    ensures
        fold_from((p + q, cur), lines) == (p + fold_from((q, cur), lines).0, fold_from((q, cur), lines).1),
    decreases lines.len(),
{
    if lines.len() > 0 {
        lemma_fold_shift(p, q, cur, lines.drop_last());
        let (q1, c1) = fold_from((q, cur), lines.drop_last());
        let line = trim_spec(lines.last());
        lemma_flush_shift(p, q1, c1);
        let c2 = append_spec(Seq::<char>::empty(), line);
        let c3 = append_spec(c1, line);
        lemma_flush_shift(p, flush_para(q1, c1), c2);
        lemma_flush_shift(p, q1, c3);
    }
}

/// A blank line (empty once trimmed) always ends a paragraph: the paragraphs of lines `a`, a
/// blank line and lines `b` are the paragraphs of `a` followed by those of `b`.
pub proof fn law_blank_line_splits_paragraphs(a: Seq<Seq<char>>, blank: Seq<char>, b: Seq<Seq<char>>)
    requires
        trim_spec(blank).len() == 0,
    ensures
        paragraphs_spec(a + seq![blank] + b) == paragraphs_spec(a) + paragraphs_spec(b),
{
    let pa = paragraphs_spec(a);
    lemma_fold_concat(a, seq![blank]);
    assert(seq![blank].drop_last() =~= Seq::<Seq<char>>::empty());
    assert(seq![blank].last() == blank);
    assert(fold_from(para_fold(a), Seq::<Seq<char>>::empty()) == para_fold(a));
    assert(fold_from(para_fold(a), seq![blank].drop_last()) == para_fold(a));
    assert(fold_from(para_fold(a), seq![blank]) == para_step(para_fold(a), blank));
    assert(para_fold(a + seq![blank]) == (pa, Seq::<char>::empty()));
    lemma_fold_concat(a + seq![blank], b);
    lemma_fold_shift(pa, Seq::<Seq<char>>::empty(), Seq::<char>::empty(), b);
    assert(pa + Seq::<Seq<char>>::empty() == pa);
    lemma_fold_concat(Seq::<Seq<char>>::empty(), b);
    assert(Seq::<Seq<char>>::empty() + b == b);
    assert(para_fold(Seq::<Seq<char>>::empty()) == (Seq::<Seq<char>>::empty(), Seq::<char>::empty()));
    let (pb, cb) = para_fold(b);
    assert(para_fold(a + seq![blank] + b) == (pa + pb, cb));
    lemma_flush_shift(pa, pb, cb);
}

/// A paragraph-closing mark: 。, an ASCII or full-width colon, 】 or 」.
pub open spec fn closing_mark(c: char) -> bool {
    c == '。' || c == ':' || c == '：' || c == '】' || c == '」'
}

proof fn lemma_fold_first(st: (Seq<Seq<char>>, Seq<char>), l: Seq<char>, r: Seq<Seq<char>>)
    ensures
        fold_from(st, seq![l] + r) == fold_from(para_step(st, l), r),
    decreases r.len(),
{
    if r.len() == 0 {
        assert(seq![l] + r == seq![l]);
        assert(seq![l].drop_last() =~= Seq::<Seq<char>>::empty());
        assert(fold_from(st, Seq::<Seq<char>>::empty()) == st);
        assert(fold_from(st, seq![l]) == para_step(fold_from(st, seq![l].drop_last()), l));
        assert(fold_from(para_step(st, l), r) == para_step(st, l));
    } else {
        lemma_fold_first(st, l, r.drop_last());
        assert((seq![l] + r).drop_last() == seq![l] + r.drop_last());
        assert((seq![l] + r).last() == r.last());
    }
}

/// After a line whose trimmed text ends with a closing mark, the paragraph being built is
/// empty or ends with that mark.
proof fn lemma_step_closes(st: (Seq<Seq<char>>, Seq<char>), x: Seq<char>)
    requires
        trim_spec(x).len() > 0,
        closing_mark(trim_spec(x).last()),
    ensures
        para_step(st, x).1.len() == 0 || ends_block_spec(para_step(st, x).1),
{
    let (paras, cur) = st;
    let line = trim_spec(x);
    let c1 = if cur.len() > 0 && (starts_new_block_spec(line) || ends_block_spec(cur)) {
        Seq::<char>::empty()
    } else {
        cur
    };
    let c2 = append_spec(c1, line);
    assert(c2.len() > 0 && c2.last() == line.last()) by {
        if c1.len() == 0 {
        } else if line.len() > 0 && cjk(c1.last()) && cjk(line[0]) {
            assert((c1 + line).last() == line.last());
        } else {
            assert((c1.push(' ') + line).last() == line.last());
        }
    }
}

/// Stepping from a paragraph that is closed gives what stepping from its flushed state gives.
proof fn lemma_step_after_close(paras: Seq<Seq<char>>, cur: Seq<char>, l: Seq<char>)
    requires
        cur.len() == 0 || ends_block_spec(cur),
    ensures
        para_step((paras, cur), l) == para_step((flush_para(paras, cur), Seq::<char>::empty()), l),
{
    if cur.len() == 0 {
        assert(trim_front(cur) == cur);
        assert(trim_back(cur) == cur);
        assert(flush_para(paras, cur) == paras);
    }
    let fe = flush_para(flush_para(paras, cur), Seq::<char>::empty());
    let e = Seq::<char>::empty();
    assert(trim_front(e) == e);
    assert(trim_back(e) == e);
    assert(fe == flush_para(paras, cur));
}

/// Text that ends with a closing mark ends its paragraph: the paragraphs of lines `a`, a line
/// `x` whose trimmed text ends with 。, `:`, `：`, 】 or 」, and lines `c` are the paragraphs of
/// `a` and `x` followed by the paragraphs of `c`; nothing of `c` is joined to `x`.
pub proof fn law_closing_mark_ends_paragraph(a: Seq<Seq<char>>, x: Seq<char>, c: Seq<Seq<char>>)
    requires
        trim_spec(x).len() > 0,
        closing_mark(trim_spec(x).last()),
    ensures
        paragraphs_spec(a + seq![x] + c) == paragraphs_spec(a + seq![x]) + paragraphs_spec(c),
{
    let ax = a + seq![x];
    lemma_fold_concat(a, seq![x]);
    assert(seq![x].drop_last() =~= Seq::<Seq<char>>::empty());
    assert(seq![x].last() == x);
    assert(fold_from(para_fold(a), Seq::<Seq<char>>::empty()) == para_fold(a));
    assert(fold_from(para_fold(a), seq![x].drop_last()) == para_fold(a));
    assert(fold_from(para_fold(a), seq![x]) == para_step(para_fold(a), x));
    assert(para_fold(ax) == para_step(para_fold(a), x));
    lemma_step_closes(para_fold(a), x);
    let (p, cur) = para_fold(ax);
    let fp = flush_para(p, cur);
    assert(paragraphs_spec(ax) == fp);
    lemma_fold_concat(ax, c);
    let e = Seq::<char>::empty();
    let es = Seq::<Seq<char>>::empty();
    assert(trim_front(e) == e);
    assert(trim_back(e) == e);
    lemma_fold_concat(es, c);
    assert(es + c == c);
    assert(para_fold(es) == (es, e));
    lemma_fold_shift(fp, es, e, c);
    assert(fp + es == fp);
    if c.len() == 0 {
        assert(ax + c == ax);
        assert(paragraphs_spec(c) == flush_para(es, e));
        assert(flush_para(es, e) == es);
    } else {
        let l = c[0];
        let r = c.drop_first();
        assert(c == seq![l] + r);
        lemma_fold_first((p, cur), l, r);
        lemma_fold_first((fp, e), l, r);
        lemma_step_after_close(p, cur, l);
        assert(fold_from((p, cur), c) == fold_from((fp, e), c));
        let (pc, cc) = para_fold(c);
        assert(para_fold(ax + c) == (fp + pc, cc));
        lemma_flush_shift(fp, pc, cc);
    }
}

// ---------------------------------------------------------------- pages

/// Drops the carriage return that ends a line, if any.
pub open spec fn strip_cr(l: Seq<char>) -> Seq<char> {
    if l.len() > 0 && l.last() == '\r' {
        l.drop_last()
    } else {
        l
    }
}

/// The lines ended by `\n` so far, and the line still open.
pub open spec fn nl_fold(s: Seq<char>) -> (Seq<Seq<char>>, Seq<char>)
    decreases s.len(),
{
    if s.len() == 0 {
        (Seq::empty(), Seq::empty())
    } else {
        let (done, cur) = nl_fold(s.drop_last());
        if s.last() == '\n' {
            (done.push(strip_cr(cur)), Seq::empty())
        } else {
            (done, cur.push(s.last()))
        }
    }
}

/// The lines of a text as `str::lines` yields them: split at `\n` (a `\r` before it is
/// dropped), with no empty line after a final `\n`.
pub open spec fn lines_spec(s: Seq<char>) -> Seq<Seq<char>> {
    let (done, cur) = nl_fold(s);
    if cur.len() > 0 {
        done.push(cur)
    } else {
        done
    }
}

/// Splits a text into lines (`lines_spec`).
pub fn split_lines(text: &str) -> (r: Vec<String>)
    ensures
        strings_view(r@) == lines_spec(text@),
{
    let cs = chars_of(text);
    let mut done: Vec<String> = Vec::new();
    let mut cur: Vec<char> = Vec::new();
    let mut i: usize = 0;
    while i < cs.len()
        invariant
            i <= cs.len(),
            cs@ == text@,
            nl_fold(cs@.take(i as int)) == (strings_view(done@), cur@),
        decreases cs.len() - i,
    {
        let c = cs[i];
        assert(cs@.take(i + 1).drop_last() == cs@.take(i as int));
        if c == '\n' {
            if cur.len() > 0 && cur[cur.len() - 1] == '\r' {
                cur.pop();
            }
            let ghost before = done@;
            done.push(string_of(cur.as_slice()));
            assert(strings_view(done@) =~= strings_view(before).push(cur@));
            cur.clear();
        } else {
            cur.push(c);
        }
        i = i + 1;
    }
    assert(cs@.take(cs.len() as int) == cs@);
    if cur.len() > 0 {
        let ghost before = done@;
        done.push(string_of(cur.as_slice()));
        assert(strings_view(done@) =~= strings_view(before).push(cur@));
    }
    done
}

/// The location label of a PDF page: `p.` and the page number.
pub open spec fn page_loc(no: nat) -> Seq<char> {
    "p."@ + decimal(no)
}

/// The blocks of one page: its paragraphs, each labelled with the page.
pub open spec fn page_blocks(no: nat, text: Seq<char>) -> Seq<BlockView> {
    paragraphs_spec(lines_spec(text)).map_values(|p: Seq<char>| BlockView { loc: page_loc(no), text: p })
}

/// The blocks of all pages in order, pages numbered from 1.
pub open spec fn pages_blocks(pages: Seq<Seq<char>>) -> Seq<BlockView>
    decreases pages.len(),
{
    if pages.len() == 0 {
        Seq::empty()
    } else {
        pages_blocks(pages.drop_last()) + page_blocks(pages.len(), pages.last())
    }
}

/// Splits the text of each page (in page order) into paragraph blocks labelled `p.N`.
pub fn extract_blocks(pages: &[String]) -> (r: Vec<Block>)
    requires
        pages@.len() <= 65535,
    ensures
        blocks_view(r@) == pages_blocks(strings_view(pages@)),
{
    let ghost ps = strings_view(pages@);
    let mut blocks: Vec<Block> = Vec::new();
    let mut idx: usize = 0;
    while idx < pages.len()
        invariant
            idx <= pages.len(),
            pages@.len() <= 65535,
            ps == strings_view(pages@),
            blocks_view(blocks@) == pages_blocks(ps.take(idx as int)),
        decreases pages.len() - idx,
    {
        let page_no: u16 = idx as u16 + 1;
        let mut loc_chars = chars_of("p.");
        push_decimal(&mut loc_chars, page_no as u64);
        let paras = lines_to_paragraphs(split_lines(pages[idx].as_str()).as_slice());
        let ghost start = blocks@;
        let ghost pv = strings_view(paras@);
        let mut k: usize = 0;
        while k < paras.len()
            invariant
                k <= paras.len(),
                pv == strings_view(paras@),
                loc_chars@ == page_loc((idx + 1) as nat),
                blocks_view(blocks@) == blocks_view(start) + pv.take(k as int).map_values(
                    |p: Seq<char>| BlockView { loc: page_loc((idx + 1) as nat), text: p },
                ),
            decreases paras.len() - k,
        {
            let ghost before = blocks@;
            blocks.push(Block { loc: string_of(loc_chars.as_slice()), text: paras[k].clone() });
            assert(blocks_view(blocks@) =~= blocks_view(before).push(blocks@.last()@));
            assert(pv.take(k + 1).map_values(|p: Seq<char>| BlockView { loc: page_loc((idx + 1) as nat), text: p })
                =~= pv.take(k as int).map_values(|p: Seq<char>| BlockView { loc: page_loc((idx + 1) as nat), text: p }).push(
                BlockView { loc: page_loc((idx + 1) as nat), text: pv[k as int] },
            ));
            k = k + 1;
        }
        assert(pv.take(paras.len() as int) == pv);
        assert(ps.take(idx + 1).drop_last() == ps.take(idx as int));
        assert(ps.take(idx + 1).last() == pages@[idx as int]@);
        idx = idx + 1;
    }
    assert(ps.take(pages.len() as int) == ps);
    blocks
}

} // verus!
