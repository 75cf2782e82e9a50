//! Paragraph-level diff of two block lists, turned into rows of left/right cells for the
//! report.
//!
//! 1. Blocks are compared by their text with all white space removed (Myers diff).
//! 2. Inside a replaced region, old and new blocks are matched one to one, in order, so that
//!    the total similarity is maximal; a matched pair becomes a "changed" row with
//!    character-level `<del>`/`<ins>` markup, an unmatched block a "deleted" or "inserted" row.
//! 3. A deleted and an inserted block with exactly the same text become "moved".
use vstd::prelude::*;
use crate::align::{
    Step, MAX_PAIR_SCORE, best_table, traceback, small_region, trace, tables_ok, index_steps,
    index_pairing, min_nat, steps_in_range, lemma_aligned_in_range, lemma_trace_aligned,
    lemma_index_steps_aligned,
};
use crate::extract::{Block, BlockView, blocks_view};
use crate::text::{is_ws, is_whitespace, chars_of, string_of, strings_view};
use similar::{Algorithm, DiffTag, TextDiff, TextDiffConfig};

verus! {

/// The kind of a report row.
#[derive(Debug, Clone, Copy, PartialEq, Eq, Structural)]
pub enum RowKind {
    Same,
    Changed,
    Deleted,
    Inserted,
    /// A deletion and an insertion with identical text (the block moved within the document).
    Moved,
}

/// One side of a report row.
#[derive(Debug, Clone)]
pub struct Cell {
    pub loc: String,
    /// Escaped HTML (with `<del>`/`<ins>` markup in changed rows).
    pub html: String,
}

pub struct CellView {
    pub loc: Seq<char>,
    pub html: Seq<char>,
}

impl View for Cell {
    type V = CellView;

    open spec fn view(&self) -> CellView {
        CellView { loc: self.loc@, html: self.html@ }
    }
}

pub open spec fn opt_cell_view(c: Option<Cell>) -> Option<CellView> {
    match c {
        Some(c) => Some(c@),
        None => None,
    }
}

/// A report row: the old block on the left, the new block on the right.
#[derive(Debug, Clone)]
pub struct Row {
    pub kind: RowKind,
    pub left: Option<Cell>,
    pub right: Option<Cell>,
    /// The block's exact text, kept on deleted and inserted rows to detect moves.
    pub key: Option<String>,
}

pub struct RowView {
    pub kind: RowKind,
    pub left: Option<CellView>,
    pub right: Option<CellView>,
    pub key: Option<Seq<char>>,
}

pub open spec fn opt_string_view(s: Option<String>) -> Option<Seq<char>> {
    match s {
        Some(k) => Some(k@),
        None => None,
    }
}

impl View for Row {
    type V = RowView;

    open spec fn view(&self) -> RowView {
        RowView {
            kind: self.kind,
            left: opt_cell_view(self.left),
            right: opt_cell_view(self.right),
            key: opt_string_view(self.key),
        }
    }
}

pub open spec fn rows_view(s: Seq<Row>) -> Seq<RowView> {
    s.map_values(|r: Row| r@)
}

// ---------------------------------------------------------------- escaping, normalizing

/// The HTML escape of one character.
pub open spec fn escape_char(c: char) -> Seq<char> {
    if c == '&' {
        seq!['&', 'a', 'm', 'p', ';']
    } else if c == '<' {
        seq!['&', 'l', 't', ';']
    } else if c == '>' {
        seq!['&', 'g', 't', ';']
    } else if c == '"' {
        seq!['&', 'q', 'u', 'o', 't', ';']
    } else {
        seq![c]
    }
}

/// The HTML escape of a text: `&`, `<`, `>` and `"` become entities, all else is kept.
pub open spec fn escape_spec(s: Seq<char>) -> Seq<char>
    decreases s.len(),
{
    if s.len() == 0 {
        Seq::empty()
    } else {
        escape_spec(s.drop_last()) + escape_char(s.last())
    }
}

fn push_escaped(out: &mut Vec<char>, c: char)
    ensures
        final(out)@ == old(out)@ + escape_char(c),
{
    if c == '&' {
        out.push('&');
        out.push('a');
        out.push('m');
        out.push('p');
        out.push(';');
    } else if c == '<' {
        out.push('&');
        out.push('l');
        out.push('t');
        out.push(';');
    } else if c == '>' {
        out.push('&');
        out.push('g');
        out.push('t');
        out.push(';');
    } else if c == '"' {
        out.push('&');
        out.push('q');
        out.push('u');
        out.push('o');
        out.push('t');
        out.push(';');
    } else {
        out.push(c);
    }
}

pub fn escape_chars(cs: &[char]) -> (r: Vec<char>)
    ensures
        r@ == escape_spec(cs@),
{
    let mut out: Vec<char> = Vec::new();
    let mut i: usize = 0;
    while i < cs.len()
        invariant
            i <= cs.len(),
            out@ == escape_spec(cs@.take(i as int)),
        decreases cs.len() - i,
    {
        push_escaped(&mut out, cs[i]);
        assert(cs@.take(i + 1).drop_last() == cs@.take(i as int));
        i = i + 1;
    }
    assert(cs@.take(cs.len() as int) == cs@);
    out
}

/// Escapes `&`, `<`, `>` and `"` for HTML.
pub fn escape(s: &str) -> (r: String)
    ensures
        r@ == escape_spec(s@),
{
    let cs = chars_of(s);
    let out = escape_chars(cs.as_slice());
    string_of(out.as_slice())
}

/// The text with every white-space character removed (the key by which blocks are matched).
pub open spec fn normalize_spec(s: Seq<char>) -> Seq<char>
    decreases s.len(),
{
    if s.len() == 0 {
        Seq::empty()
    } else if is_ws(s.last()) {
        normalize_spec(s.drop_last())
    } else {
        normalize_spec(s.drop_last()).push(s.last())
    }
}

/// Removes every white-space character (`normalize_spec`): the key by which blocks match.
pub fn normalize(s: &str) -> (r: String)
    ensures
        r@ == normalize_spec(s@),
{
    let cs = chars_of(s);
    let mut out: Vec<char> = Vec::new();
    let mut i: usize = 0;
    while i < cs.len()
        invariant
            i <= cs.len(),
            cs@ == s@,
            out@ == normalize_spec(cs@.take(i as int)),
        decreases cs.len() - i,
    {
        let c = cs[i];
        if !is_whitespace(c) {
            out.push(c);
        }
        assert(cs@.take(i + 1).drop_last() == cs@.take(i as int));
        i = i + 1;
    }
    assert(cs@.take(cs.len() as int) == cs@);
    string_of(out.as_slice())
}

// ---------------------------------------------------------------- rows of single blocks

pub open spec fn same_row_v(o: BlockView, n: BlockView) -> RowView {
    RowView {
        kind: RowKind::Same,
        left: Some(CellView { loc: o.loc, html: escape_spec(o.text) }),
        right: Some(CellView { loc: n.loc, html: escape_spec(n.text) }),
        key: None,
    }
}

pub open spec fn deleted_row_v(o: BlockView) -> RowView {
    RowView {
        kind: RowKind::Deleted,
        left: Some(CellView { loc: o.loc, html: escape_spec(o.text) }),
        right: None,
        key: Some(o.text),
    }
}

pub open spec fn inserted_row_v(n: BlockView) -> RowView {
    RowView {
        kind: RowKind::Inserted,
        left: None,
        right: Some(CellView { loc: n.loc, html: escape_spec(n.text) }),
        key: Some(n.text),
    }
}

pub open spec fn changed_row_v(o: BlockView, n: BlockView, lh: Seq<char>, rh: Seq<char>) -> RowView {
    RowView {
        kind: RowKind::Changed,
        left: Some(CellView { loc: o.loc, html: lh }),
        right: Some(CellView { loc: n.loc, html: rh }),
        key: None,
    }
}

fn same_row(o: &Block, n: &Block) -> (r: Row)
    ensures
        r@ == same_row_v(o@, n@),
{
    Row {
        kind: RowKind::Same,
        left: Some(Cell { loc: o.loc.clone(), html: escape(o.text.as_str()) }),
        right: Some(Cell { loc: n.loc.clone(), html: escape(n.text.as_str()) }),
        key: None,
    }
}

fn deleted_row(o: &Block) -> (r: Row)
    ensures
        r@ == deleted_row_v(o@),
{
    Row {
        kind: RowKind::Deleted,
        left: Some(Cell { loc: o.loc.clone(), html: escape(o.text.as_str()) }),
        right: None,
        key: Some(o.text.clone()),
    }
}

fn inserted_row(n: &Block) -> (r: Row)
    ensures
        r@ == inserted_row_v(n@),
{
    Row {
        kind: RowKind::Inserted,
        left: None,
        right: Some(Cell { loc: n.loc.clone(), html: escape(n.text.as_str()) }),
        key: Some(n.text.clone()),
    }
}

fn changed_row(o: &Block, n: &Block, lh: String, rh: String) -> (r: Row)
    ensures
        r@ == changed_row_v(o@, n@, lh@, rh@),
{
    Row {
        kind: RowKind::Changed,
        left: Some(Cell { loc: o.loc.clone(), html: lh }),
        right: Some(Cell { loc: n.loc.clone(), html: rh }),
        key: None,
    }
}

// ---------------------------------------------------------------- diff operations

/// The tag of a diff operation (and of a single change).
#[derive(Debug, Clone, Copy, PartialEq, Eq, Structural)]
pub enum OpTag {
    Equal,
    Delete,
    Insert,
    Replace,
}

/// A diff operation over the old range `old_start..old_end` and new range `new_start..new_end`.
#[derive(Debug, Clone, Copy, PartialEq, Eq, Structural)]
pub struct Op {
    pub tag: OpTag,
    pub old_start: usize,
    pub old_end: usize,
    pub new_start: usize,
    pub new_end: usize,
}

/// `op` starts at old position `oi` and new position `ni` and has the shape its tag demands.
pub open spec fn op_fits(op: Op, oi: int, ni: int) -> bool {
    &&& op.old_start == oi
    &&& op.new_start == ni
    &&& op.old_start <= op.old_end
    &&& op.new_start <= op.new_end
    &&& match op.tag {
        OpTag::Equal => op.old_end - op.old_start == op.new_end - op.new_start,
        OpTag::Delete => op.new_end == op.new_start,
        OpTag::Insert => op.old_end == op.old_start,
        OpTag::Replace => true,
    }
}

/// Where a list of operations ends when each starts where the previous one ended, from `(0, 0)`.
pub open spec fn ops_end(ops: Seq<Op>) -> Option<(int, int)>
    decreases ops.len(),
{
    if ops.len() == 0 {
        Some((0, 0))
    } else {
        match ops_end(ops.drop_last()) {
            Some((oi, ni)) => if op_fits(ops.last(), oi, ni) {
                Some((ops.last().old_end as int, ops.last().new_end as int))
            } else {
                None
            },
            None => None,
        }
    }
}

/// The operations cover the old sequence `0..n` and the new sequence `0..m` contiguously.
pub open spec fn ops_cover(ops: Seq<Op>, n: int, m: int) -> bool {
    ops_end(ops) == Some((n, m))
}

/// Every operation of a covering list lies within the sequences and starts where the
/// operations before it end.
pub proof fn lemma_ops_bounds(ops: Seq<Op>, n: int, m: int)
    requires
        ops_end(ops) == Some((n, m)),
    ensures
        forall|p: int|
            0 <= p < ops.len() ==> {
                &&& ops_end(ops.take(p)) == Some((ops[p].old_start as int, ops[p].new_start as int))
                &&& op_fits(#[trigger] ops[p], ops[p].old_start as int, ops[p].new_start as int)
                &&& ops[p].old_end <= n
                &&& ops[p].new_end <= m
            },
    decreases ops.len(),
{
    if ops.len() > 0 {
        let rest = ops.drop_last();
        let (oi, ni) = ops_end(rest).unwrap();
        lemma_ops_bounds(rest, oi, ni);
        assert forall|p: int| 0 <= p < ops.len() implies {
            &&& ops_end(ops.take(p)) == Some((ops[p].old_start as int, ops[p].new_start as int))
            &&& op_fits(#[trigger] ops[p], ops[p].old_start as int, ops[p].new_start as int)
            &&& ops[p].old_end <= n
            &&& ops[p].new_end <= m
        } by {
            if p < ops.len() - 1 {
                assert(ops.take(p) == rest.take(p));
                assert(ops[p] == rest[p]);
            } else {
                assert(ops.take(p) == rest);
            }
        }
    }
}

/// Every operation has its shape and lies within lengths `n` and `m`.
#[verifier::opaque]
pub open spec fn ops_fit_all(ops: Seq<Op>, n: int, m: int) -> bool {
    forall|q: int|
        0 <= q < ops.len() ==> {
            &&& op_fits(#[trigger] ops[q], ops[q].old_start as int, ops[q].new_start as int)
            &&& ops[q].old_end <= n
            &&& ops[q].new_end <= m
        }
}

proof fn lemma_ops_fit_all(ops: Seq<Op>, n: int, m: int)
    requires
        ops_cover(ops, n, m),
    ensures
        ops_fit_all(ops, n, m),
{
    reveal(ops_fit_all);
    lemma_ops_bounds(ops, n, m);
}

proof fn lemma_fit_at(ops: Seq<Op>, n: int, m: int, q: int)
    requires
        ops_fit_all(ops, n, m),
        0 <= q < ops.len(),
    ensures
        op_fits(ops[q], ops[q].old_start as int, ops[q].new_start as int),
        ops[q].old_end <= n,
        ops[q].new_end <= m,
{
    reveal(ops_fit_all);
}

/// Checks that the operations cover `0..n` and `0..m` contiguously.
fn check_ops(ops: &[Op], n: usize, m: usize) -> (r: bool)
    ensures
        r == ops_cover(ops@, n as int, m as int),
{
    let mut ok = true;
    let mut oi: usize = 0;
    let mut ni: usize = 0;
    let mut p: usize = 0;
    while p < ops.len()
        invariant
            p <= ops.len(),
            ok ==> ops_end(ops@.take(p as int)) == Some((oi as int, ni as int)),
            !ok ==> ops_end(ops@.take(p as int)) is None,
        decreases ops.len() - p,
    {
        let op = ops[p];
        assert(ops@.take(p + 1).drop_last() == ops@.take(p as int));
        if ok {
            let fits = op.old_start == oi && op.new_start == ni && op.old_start <= op.old_end
                && op.new_start <= op.new_end && match op.tag {
                OpTag::Equal => op.old_end - op.old_start == op.new_end - op.new_start,
                OpTag::Delete => op.new_end == op.new_start,
                OpTag::Insert => op.old_end == op.old_start,
                OpTag::Replace => true,
            };
            if fits {
                oi = op.old_end;
                ni = op.new_end;
            } else {
                ok = false;
            }
        }
        p = p + 1;
    }
    assert(ops@.take(ops.len() as int) == ops@);
    ok && oi == n && ni == m
}

/// The Myers diff of two key lists, as `similar` computes it.
pub uninterp spec fn myers_ops(old_keys: Seq<Seq<char>>, new_keys: Seq<Seq<char>>) -> Seq<Op>;

/// The character diff of two texts, as `similar` computes it.
pub uninterp spec fn char_diff_ops(old: Seq<char>, new: Seq<char>) -> Seq<Op>;

/// One equal operation over `n` elements, or none for `n == 0`: the diff of a list with an
/// equal list.
pub open spec fn all_equal_ops(n: nat) -> Seq<Op> {
    if n == 0 {
        Seq::empty()
    } else {
        seq![Op { tag: OpTag::Equal, old_start: 0, old_end: n as usize, new_start: 0, new_end: n as usize }]
    }
}

/// The operations of `similar`'s Myers diff of two string slices
/// (`TextDiffConfig::diff_slices` with `Algorithm::Myers`, then `ops`). The result is named
/// `myers_ops` of the two key lists; of equal lists, `similar` returns a single equal
/// operation (none for empty lists): with no deadline, both of its Myers paths trim the common
/// prefix first and emit it as one equal run, and nothing remains to diff. Nothing else is
/// claimed of it; in particular its default Myers search may settle for a non-minimal edit
/// script on hard inputs, so no bound by the longest common subsequence is stated.
#[verifier::external_body]
fn diff_key_lists(old_keys: &[String], new_keys: &[String]) -> (ops: Vec<Op>)
    ensures
        ops@ == myers_ops(strings_view(old_keys@), strings_view(new_keys@)),
        strings_view(old_keys@) == strings_view(new_keys@) ==> ops@ == all_equal_ops(old_keys@.len()),
{
    let old_refs: Vec<&str> = old_keys.iter().map(String::as_str).collect();
    let new_refs: Vec<&str> = new_keys.iter().map(String::as_str).collect();
    let diff = TextDiffConfig::default().algorithm(Algorithm::Myers).diff_slices(&old_refs, &new_refs);
    diff.ops().iter().map(|op| {
        let (tag, o, n) = op.as_tag_tuple();
        let tag = match tag {
            DiffTag::Equal => OpTag::Equal,
            DiffTag::Delete => OpTag::Delete,
            DiffTag::Insert => OpTag::Insert,
            DiffTag::Replace => OpTag::Replace,
        };
        Op { tag, old_start: o.start, old_end: o.end, new_start: n.start, new_end: n.end }
    }).collect()
}

/// The operations of `similar`'s character diff (`TextDiff::from_chars`, then `ops`);
/// the result is named `char_diff_ops` of the two texts, nothing else is claimed of it.
#[verifier::external_body]
fn diff_chars(old: &str, new: &str) -> (ops: Vec<Op>)
    ensures
        ops@ == char_diff_ops(old@, new@),
{
    TextDiff::from_chars(old, new).ops().iter().map(|op| {
        let (tag, o, n) = op.as_tag_tuple();
        let tag = match tag {
            DiffTag::Equal => OpTag::Equal,
            DiffTag::Delete => OpTag::Delete,
            DiffTag::Insert => OpTag::Insert,
            DiffTag::Replace => OpTag::Replace,
        };
        Op { tag, old_start: o.start, old_end: o.end, new_start: n.start, new_end: n.end }
    }).collect()
}

// ---------------------------------------------------------------- similarity

/// Fixed-point 1.0 of the similarity scale.
pub const SCORE_ONE: u64 = 1_048_576;

/// Only the first 1500 characters of a text take part in the similarity.
pub open spec fn cap_text(s: Seq<char>) -> Seq<char> {
    if s.len() <= 1500 {
        s
    } else {
        s.take(1500)
    }
}

pub open spec fn op_old_len(op: Op) -> int {
    if op.old_end >= op.old_start {
        op.old_end - op.old_start
    } else {
        0
    }
}

/// Number of elements that the equal operations of `ops` cover.
pub open spec fn matched_len(ops: Seq<Op>) -> int
    decreases ops.len(),
{
    if ops.len() == 0 {
        0
    } else {
        matched_len(ops.drop_last()) + if ops.last().tag == OpTag::Equal {
            op_old_len(ops.last())
        } else {
            0
        }
    }
}

/// Similarity `2 * matched / total` is at least 0.3.
pub open spec fn pairable_of(matched: int, total: int) -> bool {
    20 * matched >= 3 * total
}

/// Similarity `2 * matched / total` in fixed point (1.0 when both texts are empty).
pub open spec fn score_of(matched: int, total: int) -> u64 {
    let mt = if matched <= total { matched } else { total };
    if total == 0 {
        SCORE_ONE
    } else {
        ((2 * mt * SCORE_ONE) / total) as u64
    }
}

pub open spec fn ratio_matched(a: Seq<char>, b: Seq<char>) -> int {
    matched_len(char_diff_ops(cap_text(a), cap_text(b)))
}

pub open spec fn ratio_total(a: Seq<char>, b: Seq<char>) -> int {
    (cap_text(a).len() + cap_text(b).len()) as int
}

/// Two texts are similar enough to be shown as one changed paragraph.
pub open spec fn pairable(a: Seq<char>, b: Seq<char>) -> bool {
    pairable_of(ratio_matched(a, b), ratio_total(a, b))
}

/// The similarity of two texts in fixed point.
pub open spec fn pair_score(a: Seq<char>, b: Seq<char>) -> u64 {
    score_of(ratio_matched(a, b), ratio_total(a, b))
}

fn capped_text(cs: &[char]) -> (r: String)
    ensures
        r@ == cap_text(cs@),
{
    let k: usize = if cs.len() <= 1500 { cs.len() } else { 1500 };
    let mut v: Vec<char> = Vec::new();
    let mut i: usize = 0;
    while i < k
        invariant
            i <= k,
            k <= cs.len(),
            v@ == cs@.take(i as int),
        decreases k - i,
    {
        v.push(cs[i]);
        assert(cs@.take(i + 1) == cs@.take(i as int).push(cs@[i as int]));
        i = i + 1;
    }
    assert(cs@.take(cs.len() as int) == cs@);
    string_of(v.as_slice())
}

/// Similarity score and pairability of two capped texts of `la` and `lb` characters.
fn pair_stats(ca: &str, cb: &str, la: usize, lb: usize) -> (r: (u64, bool))
    requires
        la == ca@.len(),
        lb == cb@.len(),
        la <= 1500,
        lb <= 1500,
    ensures
        r.0 == score_of(matched_len(char_diff_ops(ca@, cb@)), la + lb),
        r.1 == pairable_of(matched_len(char_diff_ops(ca@, cb@)), la + lb),
        r.0 <= MAX_PAIR_SCORE,
{
    let ops = diff_chars(ca, cb);
    let mut sum: u128 = 0;
    let mut p: usize = 0;
    while p < ops.len()
        invariant
            p <= ops.len(),
            sum == matched_len(ops@.take(p as int)),
            sum <= p * 0xffff_ffff_ffff_ffffu128,
        decreases ops.len() - p,
    {
        let op = ops[p];
        assert(ops@.take(p + 1).drop_last() == ops@.take(p as int));
        if op.tag == OpTag::Equal && op.old_end >= op.old_start {
            sum = sum + (op.old_end - op.old_start) as u128;
        }
        p = p + 1;
    }
    assert(ops@.take(ops.len() as int) == ops@);
    let t: u128 = (la + lb) as u128;
    let mt: u128 = if sum <= t { sum } else { t };
    let ok = 20 * mt >= 3 * t;
    let score: u64 = if t == 0 {
        SCORE_ONE
    } else {
        assert(2 * mt * 1_048_576 <= 2 * t * 1_048_576) by (nonlinear_arith)
            requires mt <= t;
        assert((2 * mt * 1_048_576) as int / (t as int) <= 2 * 1_048_576) by (nonlinear_arith)
            requires mt <= t, t > 0;
        ((2 * mt * 1_048_576) / t) as u64
    };
    (score, ok)
}

// ---------------------------------------------------------------- character-level markup

/// `len` changes tagged `tag`, taking the characters `src[start..start + len]`.
pub open spec fn run(tag: OpTag, src: Seq<char>, start: int, len: int) -> Seq<(OpTag, char)> {
    Seq::new(len as nat, |k: int| (tag, src[start + k]))
}

/// The single-character changes that one operation expands to: equal characters are taken
/// from the old text, a replacement is its deletions followed by its insertions.
pub open spec fn op_changes(op: Op, a: Seq<char>, b: Seq<char>) -> Seq<(OpTag, char)> {
    let ol = op.old_end - op.old_start;
    let nl = op.new_end - op.new_start;
    match op.tag {
        OpTag::Equal => run(OpTag::Equal, a, op.old_start as int, ol),
        OpTag::Delete => run(OpTag::Delete, a, op.old_start as int, ol),
        OpTag::Insert => run(OpTag::Insert, b, op.new_start as int, nl),
        OpTag::Replace => run(OpTag::Delete, a, op.old_start as int, ol) + run(
            OpTag::Insert,
            b,
            op.new_start as int,
            nl,
        ),
    }
}

pub open spec fn changes_of(ops: Seq<Op>, a: Seq<char>, b: Seq<char>) -> Seq<(OpTag, char)>
    decreases ops.len(),
{
    if ops.len() == 0 {
        Seq::empty()
    } else {
        changes_of(ops.drop_last(), a, b) + op_changes(ops.last(), a, b)
    }
}

fn push_run(out: &mut Vec<(OpTag, char)>, tag: OpTag, src: &[char], start: usize, end: usize)
    requires
        start <= end <= src.len(),
    ensures
        final(out)@ == old(out)@ + run(tag, src@, start as int, end - start),
{
    let mut k: usize = start;
    while k < end
        invariant
            start <= k <= end,
            end <= src.len(),
            out@ == old(out)@ + run(tag, src@, start as int, k - start),
        decreases end - k,
    {
        out.push((tag, src[k]));
        assert(run(tag, src@, start as int, k + 1 - start) == run(tag, src@, start as int, k - start).push((tag, src@[k as int])));
        k = k + 1;
    }
}

fn push_op_changes(out: &mut Vec<(OpTag, char)>, op: Op, a: &[char], b: &[char])
    requires
        op.old_start <= op.old_end <= a.len(),
        op.new_start <= op.new_end <= b.len(),
    ensures
        final(out)@ == old(out)@ + op_changes(op, a@, b@),
{
    match op.tag {
        OpTag::Equal => push_run(out, OpTag::Equal, a, op.old_start, op.old_end),
        OpTag::Delete => push_run(out, OpTag::Delete, a, op.old_start, op.old_end),
        OpTag::Insert => push_run(out, OpTag::Insert, b, op.new_start, op.new_end),
        OpTag::Replace => {
            push_run(out, OpTag::Delete, a, op.old_start, op.old_end);
            push_run(out, OpTag::Insert, b, op.new_start, op.new_end);
        },
    }
}

/// Every operation lies within texts of lengths `n` and `m`.
pub open spec fn ops_within(ops: Seq<Op>, n: int, m: int) -> bool {
    forall|q: int|
        0 <= q < ops.len() ==> {
            &&& (#[trigger] ops[q]).old_start <= ops[q].old_end <= n
            &&& ops[q].new_start <= ops[q].new_end <= m
        }
}

proof fn lemma_cover_within(ops: Seq<Op>, n: int, m: int)
    requires
        ops_cover(ops, n, m),
    ensures
        ops_within(ops, n, m),
{
    lemma_ops_bounds(ops, n, m);
    assert forall|q: int| 0 <= q < ops.len() implies {
        &&& (#[trigger] ops[q]).old_start <= ops[q].old_end <= n
        &&& ops[q].new_start <= ops[q].new_end <= m
    } by {
        assert(op_fits(ops[q], ops[q].old_start as int, ops[q].new_start as int));
    }
}

fn changes_from_ops(ops: &[Op], a: &[char], b: &[char]) -> (r: Vec<(OpTag, char)>)
    requires
        ops_within(ops@, a@.len() as int, b@.len() as int),
    ensures
        r@ == changes_of(ops@, a@, b@),
{
    let mut out: Vec<(OpTag, char)> = Vec::new();
    let mut p: usize = 0;
    while p < ops.len()
        invariant
            p <= ops.len(),
            ops_within(ops@, a@.len() as int, b@.len() as int),
            out@ == changes_of(ops@.take(p as int), a@, b@),
        decreases ops.len() - p,
    {
        let op = ops[p];
        assert(ops@[p as int] == op);
        push_op_changes(&mut out, op, a, b);
        assert(ops@.take(p + 1).drop_last() == ops@.take(p as int));
        p = p + 1;
    }
    assert(ops@.take(ops.len() as int) == ops@);
    out
}

/// The markup being built for the old side (`l`) and new side (`r`), with the deletions and
/// insertions not yet wrapped in tags.
#[verifier::ext_equal]
pub struct HtmlState {
    pub l: Seq<char>,
    pub r: Seq<char>,
    pub pd: Seq<char>,
    pub pi: Seq<char>,
}

/// Wraps pending deletions in `<del>` and pending insertions in `<ins>`.
pub open spec fn flush_spec(st: HtmlState) -> HtmlState {
    HtmlState {
        l: if st.pd.len() > 0 {
            st.l + "<del>"@ + st.pd + "</del>"@
        } else {
            st.l
        },
        r: if st.pi.len() > 0 {
            st.r + "<ins>"@ + st.pi + "</ins>"@
        } else {
            st.r
        },
        pd: Seq::empty(),
        pi: Seq::empty(),
    }
}

/// One character change: equal text closes the pending runs and goes to both sides;
/// deleted and inserted text extend the pending runs.
pub open spec fn html_step(st: HtmlState, ch: (OpTag, char)) -> HtmlState {
    match ch.0 {
        OpTag::Equal => {
            let f = flush_spec(st);
            HtmlState {
                l: f.l + escape_char(ch.1),
                r: f.r + escape_char(ch.1),
                pd: f.pd,
                pi: f.pi,
            }
        },
        OpTag::Delete => HtmlState { l: st.l, r: st.r, pd: st.pd + escape_char(ch.1), pi: st.pi },
        OpTag::Insert => HtmlState { l: st.l, r: st.r, pd: st.pd, pi: st.pi + escape_char(ch.1) },
        OpTag::Replace => st,
    }
}

pub open spec fn html_fold(changes: Seq<(OpTag, char)>) -> HtmlState
    decreases changes.len(),
{
    if changes.len() == 0 {
        HtmlState { l: Seq::empty(), r: Seq::empty(), pd: Seq::empty(), pi: Seq::empty() }
    } else {
        html_step(html_fold(changes.drop_last()), changes.last())
    }
}

/// The old-side and new-side markup of a list of character changes.
pub open spec fn html_of_changes(changes: Seq<(OpTag, char)>) -> (Seq<char>, Seq<char>) {
    let f = flush_spec(html_fold(changes));
    (f.l, f.r)
}

/// Number of UTF-8 bytes of a text.
pub open spec fn utf8_len(s: Seq<char>) -> usize {
    vstd::utf8::encode_utf8(s).len() as usize
}

/// Equal operations relate equal characters.
pub open spec fn equal_chars_match(ops: Seq<Op>, a: Seq<char>, b: Seq<char>) -> bool {
    forall|q: int, i: int|
        0 <= q < ops.len() && (#[trigger] ops[q]).tag == OpTag::Equal && ops[q].old_start <= i < ops[q].old_end ==> a[i]
            == #[trigger] b[i - ops[q].old_start + ops[q].new_start]
}

/// Character-level markup of a changed paragraph: the whole texts wrapped in `<del>`/`<ins>`
/// when together they exceed 30000 bytes, else the grouped character diff; `None` when the
/// character diff does not cover both texts or pairs unequal characters.
pub open spec fn char_html(a: Seq<char>, b: Seq<char>) -> Option<(Seq<char>, Seq<char>)> {
    if utf8_len(a) + utf8_len(b) > 30000 {
        Some(("<del>"@ + escape_spec(a) + "</del>"@, "<ins>"@ + escape_spec(b) + "</ins>"@))
    } else {
        let ops = char_diff_ops(a, b);
        if ops_cover(ops, a.len() as int, b.len() as int) && equal_chars_match(ops, a, b) {
            Some(html_of_changes(changes_of(ops, a, b)))
        } else {
            None
        }
    }
}

fn push_all(out: &mut Vec<char>, src: &[char])
    ensures
        final(out)@ == old(out)@ + src@,
{
    let mut i: usize = 0;
    while i < src.len()
        invariant
            i <= src.len(),
            out@ == old(out)@ + src@.take(i as int),
        decreases src.len() - i,
    {
        out.push(src[i]);
        assert(src@.take(i + 1) == src@.take(i as int).push(src@[i as int]));
        i = i + 1;
    }
    assert(src@.take(src.len() as int) == src@);
}

/// The tags `<del>`, `</del>`, `<ins>`, `</ins>` as character vectors.
struct Tags {
    del_open: Vec<char>,
    del_close: Vec<char>,
    ins_open: Vec<char>,
    ins_close: Vec<char>,
}

impl Tags {
    spec fn wf(&self) -> bool {
        &&& self.del_open@ == "<del>"@
        &&& self.del_close@ == "</del>"@
        &&& self.ins_open@ == "<ins>"@
        &&& self.ins_close@ == "</ins>"@
    }

    fn new() -> (t: Tags)
        ensures
            t.wf(),
    {
        Tags {
            del_open: chars_of("<del>"),
            del_close: chars_of("</del>"),
            ins_open: chars_of("<ins>"),
            ins_close: chars_of("</ins>"),
        }
    }
}

fn flush(tags: &Tags, l: &mut Vec<char>, r: &mut Vec<char>, pd: &mut Vec<char>, pi: &mut Vec<char>)
    requires
        tags.wf(),
    ensures
        flush_spec(HtmlState { l: old(l)@, r: old(r)@, pd: old(pd)@, pi: old(pi)@ }) == (HtmlState {
            l: final(l)@,
            r: final(r)@,
            pd: final(pd)@,
            pi: final(pi)@,
        }),
{
    if pd.len() > 0 {
        push_all(l, tags.del_open.as_slice());
        push_all(l, pd.as_slice());
        push_all(l, tags.del_close.as_slice());
        pd.clear();
    }
    if pi.len() > 0 {
        push_all(r, tags.ins_open.as_slice());
        push_all(r, pi.as_slice());
        push_all(r, tags.ins_close.as_slice());
        pi.clear();
    }
    assert(flush_spec(HtmlState { l: old(l)@, r: old(r)@, pd: old(pd)@, pi: old(pi)@ }) =~= (HtmlState {
        l: l@,
        r: r@,
        pd: pd@,
        pi: pi@,
    }));
}

fn html_from_changes(tags: &Tags, changes: &[(OpTag, char)]) -> (r: (Vec<char>, Vec<char>))
    requires
        tags.wf(),
    ensures
        (r.0@, r.1@) == html_of_changes(changes@),
{
    let mut l: Vec<char> = Vec::new();
    let mut r: Vec<char> = Vec::new();
    let mut pd: Vec<char> = Vec::new();
    let mut pi: Vec<char> = Vec::new();
    let mut i: usize = 0;
    while i < changes.len()
        invariant
            i <= changes.len(),
            tags.wf(),
            html_fold(changes@.take(i as int)) == (HtmlState { l: l@, r: r@, pd: pd@, pi: pi@ }),
        decreases changes.len() - i,
    {
        let (tag, c) = changes[i];
        match tag {
            OpTag::Equal => {
                flush(tags, &mut l, &mut r, &mut pd, &mut pi);
                push_escaped(&mut l, c);
                push_escaped(&mut r, c);
            },
            OpTag::Delete => push_escaped(&mut pd, c),
            OpTag::Insert => push_escaped(&mut pi, c),
            OpTag::Replace => {},
        }
        assert(changes@.take(i + 1).drop_last() == changes@.take(i as int));
        i = i + 1;
    }
    assert(changes@.take(changes.len() as int) == changes@);
    flush(tags, &mut l, &mut r, &mut pd, &mut pi);
    (l, r)
}

pub open spec fn opt_pair_view(r: Option<(String, String)>) -> Option<(Seq<char>, Seq<char>)> {
    match r {
        Some((a, b)) => Some((a@, b@)),
        None => None,
    }
}

fn check_equal_chars(ops: &[Op], a: &[char], b: &[char]) -> (r: bool)
    requires
        ops_within(ops@, a@.len() as int, b@.len() as int),
        forall|q: int| 0 <= q < ops@.len() && (#[trigger] ops@[q]).tag == OpTag::Equal ==> ops@[q].old_end - ops@[q].old_start
            == ops@[q].new_end - ops@[q].new_start,
    ensures
        r == equal_chars_match(ops@, a@, b@),
{
    let mut q: usize = 0;
    while q < ops.len()
        invariant
            q <= ops.len(),
            ops_within(ops@, a@.len() as int, b@.len() as int),
            forall|p: int| 0 <= p < ops@.len() && (#[trigger] ops@[p]).tag == OpTag::Equal ==> ops@[p].old_end - ops@[p].old_start
                == ops@[p].new_end - ops@[p].new_start,
            forall|p: int, i: int|
                0 <= p < q && (#[trigger] ops@[p]).tag == OpTag::Equal && ops@[p].old_start <= i < ops@[p].old_end ==> a@[i]
                    == #[trigger] b@[i - ops@[p].old_start + ops@[p].new_start],
        decreases ops.len() - q,
    {
        let op = ops[q];
        assert(ops@[q as int] == op);
        if op.tag == OpTag::Equal {
            let mut k: usize = op.old_start;
            while k < op.old_end
                invariant
                    op.old_start <= k <= op.old_end,
                    op == ops@[q as int],
                    q < ops@.len(),
                    op.tag == OpTag::Equal,
                    op.old_end <= a@.len(),
                    op.new_start <= op.new_end <= b@.len(),
                    op.old_end - op.old_start == op.new_end - op.new_start,
                    forall|i: int| op.old_start <= i < k ==> a@[i] == #[trigger] b@[i - op.old_start + op.new_start],
                decreases op.old_end - k,
            {
                if a[k] != b[k - op.old_start + op.new_start] {
                    assert(a@[k as int] != b@[k - op.old_start + op.new_start]);
                    return false;
                }
                k = k + 1;
            }
        }
        q = q + 1;
    }
    true
}

/// Character-level markup from given character-diff operations: `None` unless the operations
/// cover both texts and relate only equal characters by their equal operations.
pub fn html_from_char_ops(old: &[char], new: &[char], ops: &[Op]) -> (r: Option<(String, String)>)
    ensures
        opt_pair_view(r) == if ops_cover(ops@, old@.len() as int, new@.len() as int) && equal_chars_match(
            ops@,
            old@,
            new@,
        ) {
            Some(html_of_changes(changes_of(ops@, old@, new@)))
        } else {
            None
        },
{
    if !check_ops(ops, old.len(), new.len()) {
        return None;
    }
    proof {
        lemma_cover_within(ops@, old@.len() as int, new@.len() as int);
        lemma_ops_bounds(ops@, old@.len() as int, new@.len() as int);
        assert forall|q: int| 0 <= q < ops@.len() && (#[trigger] ops@[q]).tag == OpTag::Equal implies ops@[q].old_end
            - ops@[q].old_start == ops@[q].new_end - ops@[q].new_start by {
            assert(op_fits(ops@[q], ops@[q].old_start as int, ops@[q].new_start as int));
        }
    }
    if !check_equal_chars(ops, old, new) {
        return None;
    }
    let changes = changes_from_ops(ops, old, new);
    let tags = Tags::new();
    let (l, r) = html_from_changes(&tags, changes.as_slice());
    Some((string_of(l.as_slice()), string_of(r.as_slice())))
}

/// Character-level diff markup of an old and a new paragraph (`char_html`).
pub fn char_diff_html(old: &str, new: &str) -> (r: Option<(String, String)>)
    ensures
        opt_pair_view(r) == char_html(old@, new@),
{
    let la = old.len();
    let lb = new.len();
    if la > 30000 || lb > 30000 - la {
        let mut l = chars_of("<del>");
        let ea = escape_chars(chars_of(old).as_slice());
        push_all(&mut l, ea.as_slice());
        push_all(&mut l, chars_of("</del>").as_slice());
        let mut r = chars_of("<ins>");
        let eb = escape_chars(chars_of(new).as_slice());
        push_all(&mut r, eb.as_slice());
        push_all(&mut r, chars_of("</ins>").as_slice());
        return Some((string_of(l.as_slice()), string_of(r.as_slice())));
    }
    let ops = diff_chars(old, new);
    let a = chars_of(old);
    let b = chars_of(new);
    html_from_char_ops(a.as_slice(), b.as_slice(), ops.as_slice())
}

// ---------------------------------------------------------------- replaced regions

pub open spec fn opt_rows_view(r: Option<Vec<Row>>) -> Option<Seq<RowView>> {
    match r {
        Some(v) => Some(rows_view(v@)),
        None => None,
    }
}

/// Similarity of every old block with every new block.
pub open spec fn sim_table(olds: Seq<BlockView>, news: Seq<BlockView>) -> Seq<Seq<u64>> {
    Seq::new(olds.len(), |i: int| Seq::new(news.len(), |j: int| pair_score(olds[i].text, news[j].text)))
}

/// Pairability of every old block with every new block.
pub open spec fn ok_table(olds: Seq<BlockView>, news: Seq<BlockView>) -> Seq<Seq<bool>> {
    Seq::new(olds.len(), |i: int| Seq::new(news.len(), |j: int| pairable(olds[i].text, news[j].text)))
}

pub open spec fn pair_fn(olds: Seq<BlockView>, news: Seq<BlockView>) -> spec_fn(int, int) -> bool {
    |i: int, j: int| pairable(olds[i].text, news[j].text)
}

/// Pairability of the blocks at equal positions.
pub open spec fn diag_ok(olds: Seq<BlockView>, news: Seq<BlockView>) -> Seq<bool> {
    Seq::new(min_nat(olds.len(), news.len()), |k: int| pairable(olds[k].text, news[k].text))
}

/// How a replaced region is matched: by the maximal-similarity matching when the region has at
/// most 40000 block pairs, else by position.
pub open spec fn replace_steps(olds: Seq<BlockView>, news: Seq<BlockView>) -> Seq<Step> {
    if small_region(olds.len() as int, news.len() as int) {
        trace(sim_table(olds, news), ok_table(olds, news), olds.len(), news.len())
    } else {
        index_steps(diag_ok(olds, news), olds.len(), news.len())
    }
}

/// The row of one matching step: a changed row with character markup for a pair, a deleted or
/// inserted row for an unmatched block.
pub open spec fn step_row(step: Step, olds: Seq<BlockView>, news: Seq<BlockView>) -> Option<RowView> {
    match step {
        Step::Pair(a, b) => match char_html(olds[a as int].text, news[b as int].text) {
            Some((l, r)) => Some(changed_row_v(olds[a as int], news[b as int], l, r)),
            None => None,
        },
        Step::Del(a) => Some(deleted_row_v(olds[a as int])),
        Step::Ins(b) => Some(inserted_row_v(news[b as int])),
    }
}

pub open spec fn steps_rows(steps: Seq<Step>, olds: Seq<BlockView>, news: Seq<BlockView>) -> Option<Seq<RowView>>
    decreases steps.len(),
{
    if steps.len() == 0 {
        Some(Seq::empty())
    } else {
        match (steps_rows(steps.drop_last(), olds, news), step_row(steps.last(), olds, news)) {
            (Some(rs), Some(r)) => Some(rs.push(r)),
            _ => None,
        }
    }
}

/// The rows of a replaced region.
pub open spec fn replace_rows_spec(olds: Seq<BlockView>, news: Seq<BlockView>) -> Option<Seq<RowView>> {
    steps_rows(replace_steps(olds, news), olds, news)
}

proof fn lemma_steps_rows_none(steps: Seq<Step>, olds: Seq<BlockView>, news: Seq<BlockView>, p: int)
    requires
        0 <= p <= steps.len(),
        steps_rows(steps.take(p), olds, news) is None,
    ensures
        steps_rows(steps, olds, news) is None,
    decreases steps.len() - p,
{
    if p < steps.len() {
        assert(steps.take(p + 1).drop_last() == steps.take(p));
        lemma_steps_rows_none(steps, olds, news, p + 1);
    } else {
        assert(steps.take(p) == steps);
    }
}

fn rows_of_steps(steps: &[Step], olds: &[Block], news: &[Block]) -> (r: Option<Vec<Row>>)
    requires
        steps_in_range(steps@, olds@.len() as int, news@.len() as int),
    ensures
        opt_rows_view(r) == steps_rows(steps@, blocks_view(olds@), blocks_view(news@)),
{
    let ghost ov = blocks_view(olds@);
    let ghost nv = blocks_view(news@);
    let mut out: Vec<Row> = Vec::new();
    let mut p: usize = 0;
    while p < steps.len()
        invariant
            p <= steps.len(),
            ov == blocks_view(olds@),
            nv == blocks_view(news@),
            steps_in_range(steps@, olds@.len() as int, news@.len() as int),
            steps_rows(steps@.take(p as int), ov, nv) == Some(rows_view(out@)),
        decreases steps.len() - p,
    {
        let ghost before = out@;
        assert(steps@.take(p + 1).drop_last() == steps@.take(p as int));
        let st = steps[p];
        assert(steps@[p as int] == st);
        let row = match st {
            Step::Pair(a, b) => {
                match char_diff_html(olds[a].text.as_str(), news[b].text.as_str()) {
                    Some((l, r)) => changed_row(&olds[a], &news[b], l, r),
                    None => {
                        proof {
                            lemma_steps_rows_none(steps@, ov, nv, p + 1);
                        }
                        return None;
                    },
                }
            },
            Step::Del(a) => deleted_row(&olds[a]),
            Step::Ins(b) => inserted_row(&news[b]),
        };
        out.push(row);
        assert(rows_view(out@) == rows_view(before).push(row@));
        p = p + 1;
    }
    assert(steps@.take(steps.len() as int) == steps@);
    Some(out)
}

/// `caps` and `lens` hold the capped text and its length of each block.
pub open spec fn caps_ok(caps: Seq<String>, lens: Seq<usize>, bs: Seq<Block>) -> bool {
    &&& caps.len() == bs.len()
    &&& lens.len() == bs.len()
    &&& forall|i: int|
        0 <= i < bs.len() ==> {
            &&& (#[trigger] caps[i])@ == cap_text(bs[i].text@)
            &&& lens[i] == cap_text(bs[i].text@).len()
            &&& lens[i] <= 1500
        }
}

/// The texts of the blocks, capped for the similarity, with their character counts.
fn capped_texts(bs: &[Block]) -> (r: (Vec<String>, Vec<usize>))
    ensures
        caps_ok(r.0@, r.1@, bs@),
{
    let mut caps: Vec<String> = Vec::new();
    let mut lens: Vec<usize> = Vec::new();
    let mut i: usize = 0;
    while i < bs.len()
        invariant
            i <= bs.len(),
            caps@.len() == i,
            lens@.len() == i,
            forall|k: int|
                0 <= k < i ==> {
                    &&& (#[trigger] caps@[k])@ == cap_text(bs@[k].text@)
                    &&& lens@[k] == cap_text(bs@[k].text@).len()
                    &&& lens@[k] <= 1500
                },
        decreases bs.len() - i,
    {
        let cs = chars_of(bs[i].text.as_str());
        let len: usize = if cs.len() <= 1500 { cs.len() } else { 1500 };
        caps.push(capped_text(cs.as_slice()));
        lens.push(len);
        i = i + 1;
    }
    (caps, lens)
}

proof fn lemma_small_region_check(n: usize, m: usize)
    ensures
        (n == 0 || m <= 40000usize / n) == small_region(n as int, m as int),
{
    if n > 0 {
        if m <= 40000usize / n {
            assert(n * m <= 40000) by (nonlinear_arith)
                requires n > 0, m <= 40000usize / n;
        } else {
            assert(n * m > 40000) by (nonlinear_arith)
                requires n > 0, m > 40000usize / n;
        }
    }
}

/// The rows of a replaced region: old and new blocks matched in order for maximal total
/// similarity (by position in regions of more than 40000 block pairs); `None` when a
/// character diff does not cover its texts.
pub fn replace_rows(olds: &[Block], news: &[Block]) -> (r: Option<Vec<Row>>)
    ensures
        opt_rows_view(r) == replace_rows_spec(blocks_view(olds@), blocks_view(news@)),
{
    let ghost ov = blocks_view(olds@);
    let ghost nv = blocks_view(news@);
    let n = olds.len();
    let m = news.len();
    let (co, lo) = capped_texts(olds);
    let (cn, ln) = capped_texts(news);
    proof {
        lemma_small_region_check(n, m);
    }
    if n == 0 || m <= 40000 / n {
        let mut sim: Vec<Vec<u64>> = Vec::new();
        let mut ok: Vec<Vec<bool>> = Vec::new();
        let mut i: usize = 0;
        while i < n
            invariant
                i <= n,
                n == olds@.len(),
                m == news@.len(),
                ov == blocks_view(olds@),
                nv == blocks_view(news@),
                caps_ok(co@, lo@, olds@),
                caps_ok(cn@, ln@, news@),
                sim@.len() == i,
                ok@.len() == i,
                forall|a: int| 0 <= a < i ==> #[trigger] sim@[a]@.len() == m,
                forall|a: int| 0 <= a < i ==> #[trigger] ok@[a]@.len() == m,
                forall|a: int, b: int|
                    0 <= a < i && 0 <= b < m ==> #[trigger] sim@[a]@[b] == pair_score(ov[a].text, nv[b].text)
                        && sim@[a]@[b] <= MAX_PAIR_SCORE,
                forall|a: int, b: int|
                    0 <= a < i && 0 <= b < m ==> #[trigger] ok@[a]@[b] == pairable(ov[a].text, nv[b].text),
            decreases n - i,
        {
            let mut srow: Vec<u64> = Vec::new();
            let mut orow: Vec<bool> = Vec::new();
            let mut j: usize = 0;
            while j < m
                invariant
                    i < n,
                    j <= m,
                    n == olds@.len(),
                    m == news@.len(),
                    ov == blocks_view(olds@),
                    nv == blocks_view(news@),
                    caps_ok(co@, lo@, olds@),
                    caps_ok(cn@, ln@, news@),
                    srow@.len() == j,
                    orow@.len() == j,
                    forall|b: int|
                        0 <= b < j ==> #[trigger] srow@[b] == pair_score(ov[i as int].text, nv[b].text)
                            && srow@[b] <= MAX_PAIR_SCORE,
                    forall|b: int| 0 <= b < j ==> #[trigger] orow@[b] == pairable(ov[i as int].text, nv[b].text),
                decreases m - j,
            {
                assert(co@[i as int]@ == cap_text(olds@[i as int].text@));
                assert(cn@[j as int]@ == cap_text(news@[j as int].text@));
                let (sc, pk) = pair_stats(co[i].as_str(), cn[j].as_str(), lo[i], ln[j]);
                srow.push(sc);
                orow.push(pk);
                j = j + 1;
            }
            sim.push(srow);
            ok.push(orow);
            i = i + 1;
        }
        proof {
            assert forall|a: int| 0 <= a < n implies #[trigger] sim.deep_view()[a] =~= sim_table(ov, nv)[a] by {
                assert(sim.deep_view()[a] == sim@[a].deep_view());
            }
            assert forall|a: int| 0 <= a < n implies #[trigger] ok.deep_view()[a] =~= ok_table(ov, nv)[a] by {
                assert(ok.deep_view()[a] == ok@[a].deep_view());
            }
            assert(sim.deep_view() =~= sim_table(ov, nv));
            assert(ok.deep_view() =~= ok_table(ov, nv));
            assert(tables_ok(sim.deep_view(), ok.deep_view(), n as int, m as int));
        }
        let dp = best_table(&sim, &ok, n, m);
        let steps = traceback(&sim, &ok, &dp, n, m);
        proof {
            lemma_trace_aligned(sim.deep_view(), ok.deep_view(), n as int, m as int, n as nat, m as nat);
            lemma_aligned_in_range(|a: int, b: int| ok.deep_view()[a][b], steps@, n as int, m as int);
        }
        rows_of_steps(steps.as_slice(), olds, news)
    } else {
        let p: usize = if n <= m { n } else { m };
        let mut okd: Vec<bool> = Vec::new();
        let mut k: usize = 0;
        while k < p
            invariant
                k <= p,
                p == min_nat(n as nat, m as nat),
                n == olds@.len(),
                m == news@.len(),
                ov == blocks_view(olds@),
                nv == blocks_view(news@),
                caps_ok(co@, lo@, olds@),
                caps_ok(cn@, ln@, news@),
                okd@.len() == k,
                forall|t: int| 0 <= t < k ==> #[trigger] okd@[t] == pairable(ov[t].text, nv[t].text),
            decreases p - k,
        {
            assert(co@[k as int]@ == cap_text(olds@[k as int].text@));
            assert(cn@[k as int]@ == cap_text(news@[k as int].text@));
            let (_sc, pk) = pair_stats(co[k].as_str(), cn[k].as_str(), lo[k], ln[k]);
            okd.push(pk);
            k = k + 1;
        }
        assert(okd@ =~= diag_ok(ov, nv));
        let steps = index_pairing(&okd, n, m);
        proof {
            lemma_index_steps_aligned(pair_fn(ov, nv), okd@, n as nat, m as nat);
            lemma_aligned_in_range(pair_fn(ov, nv), steps@, n as int, m as int);
        }
        rows_of_steps(steps.as_slice(), olds, news)
    }
}

// ---------------------------------------------------------------- moves

/// Number of rows in `lo..hi` of the given kind whose key is `k`.
pub open spec fn count_kk(rows: Seq<RowView>, kind: RowKind, k: Seq<char>, lo: int, hi: int) -> nat
    decreases hi - lo,
{
    if hi <= lo {
        0
    } else {
        count_kk(rows, kind, k, lo, hi - 1) + if rows[hi - 1].kind == kind && rows[hi - 1].key == Some(k) {
            1nat
        } else {
            0nat
        }
    }
}

/// Whether row `i` becomes a moved row. For each key, deleted rows are taken in order and each
/// is paired with the last still unpaired inserted row of the same key; both of a pair move.
/// So a deleted row moves when fewer deleted rows of its key come before it than the key has
/// inserted rows, and an inserted row moves when fewer inserted rows of its key come after it
/// than the key has deleted rows.
pub open spec fn becomes_moved(rows: Seq<RowView>, i: int) -> bool {
    match rows[i].key {
        Some(k) => {
            ||| rows[i].kind == RowKind::Deleted && count_kk(rows, RowKind::Deleted, k, 0, i) < count_kk(
                rows,
                RowKind::Inserted,
                k,
                0,
                rows.len() as int,
            )
            ||| rows[i].kind == RowKind::Inserted && count_kk(
                rows,
                RowKind::Inserted,
                k,
                i + 1,
                rows.len() as int,
            ) < count_kk(rows, RowKind::Deleted, k, 0, rows.len() as int)
        },
        None => false,
    }
}

pub open spec fn as_moved(r: RowView) -> RowView {
    RowView { kind: RowKind::Moved, left: r.left, right: r.right, key: r.key }
}

/// The rows with every deletion/insertion pair of identical text marked as moved.
pub open spec fn moves_spec(rows: Seq<RowView>) -> Seq<RowView> {
    Seq::new(
        rows.len(),
        |i: int|
            if becomes_moved(rows, i) {
                as_moved(rows[i])
            } else {
                rows[i]
            },
    )
}

/// A 64-bit hash of a key, used to find equal keys quickly.
pub open spec fn key_hash(s: Seq<char>) -> u64
    decreases s.len(),
{
    if s.len() == 0 {
        0
    } else {
        ((key_hash(s.drop_last()) as int * 31 + ((s.last() as u32) as int)) % 0x1_0000_0000_0000_0000) as u64
    }
}

fn hash_key(cs: &[char]) -> (h: u64)
    ensures
        h == key_hash(cs@),
{
    let mut h: u64 = 0;
    let mut i: usize = 0;
    while i < cs.len()
        invariant
            i <= cs.len(),
            h == key_hash(cs@.take(i as int)),
        decreases cs.len() - i,
    {
        assert(cs@.take(i + 1).drop_last() == cs@.take(i as int));
        assert(cs@.take(i + 1).last() == cs@[i as int]);
        let c: u32 = cs[i] as u32;
        let wide: u128 = (h as u128) * 31 + c as u128;
        h = (wide % 0x1_0000_0000_0000_0000u128) as u64;
        assert(h == key_hash(cs@.take(i + 1)));
        i = i + 1;
    }
    assert(cs@.take(cs.len() as int) == cs@);
    h
}

fn chars_eq(a: &[char], b: &[char]) -> (r: bool)
    ensures
        r == (a@ == b@),
{
    if a.len() != b.len() {
        return false;
    }
    let mut i: usize = 0;
    while i < a.len()
        invariant
            i <= a.len(),
            a.len() == b.len(),
            a@.take(i as int) == b@.take(i as int),
        decreases a.len() - i,
    {
        if a[i] != b[i] {
            assert(a@[i as int] != b@[i as int]);
            return false;
        }
        assert(a@.take(i + 1) == a@.take(i as int).push(a@[i as int]));
        assert(b@.take(i + 1) == b@.take(i as int).push(b@[i as int]));
        i = i + 1;
    }
    assert(a@.take(a.len() as int) == a@);
    assert(b@.take(b.len() as int) == b@);
    true
}

pub open spec fn reg_view(reg: Seq<Vec<char>>) -> Seq<Seq<char>> {
    reg.map_values(|k: Vec<char>| k@)
}

/// The identifier of `key` among those listed, if any.
fn find_key(list: &Vec<usize>, reg: &Vec<Vec<char>>, key: &Vec<char>) -> (r: Option<usize>)
    requires
        forall|t: int| 0 <= t < list@.len() ==> #[trigger] list@[t] < reg@.len(),
    ensures
        match r {
            Some(id) => id < reg@.len() && reg@[id as int]@ == key@,
            None => forall|t: int| 0 <= t < list@.len() ==> reg@[#[trigger] list@[t] as int]@ != key@,
        },
{
    let mut t: usize = 0;
    while t < list.len()
        invariant
            t <= list.len(),
            forall|u: int| 0 <= u < list@.len() ==> #[trigger] list@[u] < reg@.len(),
            forall|u: int| 0 <= u < t ==> reg@[#[trigger] list@[u] as int]@ != key@,
        decreases list.len() - t,
    {
        let id = list[t];
        if chars_eq(reg[id].as_slice(), key.as_slice()) {
            return Some(id);
        }
        t = t + 1;
    }
    None
}

/// The identifier of `key` in its hash bucket, if the bucket lists it.
fn lookup(buckets: &std::collections::HashMap<u64, Vec<usize>>, reg: &Vec<Vec<char>>, key: &Vec<char>, h: u64) -> (r: Option<usize>)
    requires
        forall|hh: u64, t: int|
            buckets@.contains_key(hh) && 0 <= t < buckets@[hh]@.len() ==> #[trigger] buckets@[hh]@[t] < reg@.len(),
    ensures
        match r {
            Some(id) => id < reg@.len() && reg@[id as int]@ == key@,
            None => !buckets@.contains_key(h) || forall|t: int|
                0 <= t < buckets@[h]@.len() ==> reg@[#[trigger] buckets@[h]@[t] as int]@ != key@,
        },
{
    broadcast use vstd::std_specs::hash::group_hash_axioms;

    match buckets.get(&h) {
        None => None,
        Some(list) => find_key(list, reg, key),
    }
}

/// Identifiers for the keys of the rows: rows with keys get equal identifiers exactly when
/// their keys are equal; the identifiers are below the returned count.
fn key_ids(rows: &Vec<Row>) -> (r: (Vec<usize>, usize))
    ensures
        r.0@.len() == rows@.len(),
        forall|i: int| 0 <= i < rows@.len() && rows@[i].key is Some ==> #[trigger] r.0@[i] < r.1,
        forall|i: int, j: int|
            0 <= i < rows@.len() && 0 <= j < rows@.len() && rows@[i].key is Some && rows@[j].key is Some ==> (
            #[trigger] r.0@[i] == #[trigger] r.0@[j] <==> rows@[i].key->Some_0@ == rows@[j].key->Some_0@),
{
    broadcast use vstd::std_specs::hash::group_hash_axioms;

    let n = rows.len();
    let mut reg: Vec<Vec<char>> = Vec::new();
    let mut buckets: std::collections::HashMap<u64, Vec<usize>> = std::collections::HashMap::new();
    let mut ids: Vec<usize> = Vec::new();
    let mut i: usize = 0;
    while i < n
        invariant
            i <= n,
            n == rows@.len(),
            ids@.len() == i,
            forall|x: int|
                0 <= x < reg@.len() ==> buckets@.contains_key(key_hash(#[trigger] reg@[x]@)) && buckets@[key_hash(
                    reg@[x]@,
                )]@.contains(x as usize),
            forall|hh: u64, t: int|
                buckets@.contains_key(hh) && 0 <= t < buckets@[hh]@.len() ==> #[trigger] buckets@[hh]@[t] < reg@.len(),
            forall|a: int, b: int| 0 <= a < reg@.len() && 0 <= b < reg@.len() && a != b ==> #[trigger] reg@[a]@ != #[trigger] reg@[b]@,
            forall|t: int|
                0 <= t < i && rows@[t].key is Some ==> #[trigger] ids@[t] < reg@.len() && reg@[ids@[t] as int]@
                    == rows@[t].key->Some_0@,
        decreases n - i,
    {
        match &rows[i].key {
            None => {
                ids.push(0);
            },
            Some(k) => {
                let kc = chars_of(k.as_str());
                let h = hash_key(kc.as_slice());
                let found = lookup(&buckets, &reg, &kc, h);
                match found {
                    Some(id) => {
                        ids.push(id);
                    },
                    None => {
                        let rl = reg.len();
                        proof {
                            assert forall|x: int| 0 <= x < reg@.len() implies #[trigger] reg@[x]@ != kc@ by {
                                if reg@[x]@ == kc@ {
                                    assert(key_hash(reg@[x]@) == h);
                                    assert(buckets@.contains_key(h));
                                    assert(buckets@[h]@.contains(x as usize));
                                    let t = choose|t: int| 0 <= t < buckets@[h]@.len() && buckets@[h]@[t] == x as usize;
                                    assert(x < rl);
                                    assert((x as usize) as int == x);
                                    assert(reg@[buckets@[h]@[t] as int]@ != kc@);
                                }
                            }
                        }
                        let id = reg.len();
                        let ghost old_reg = reg@;
                        let ghost old_buckets = buckets@;
                        reg.push(kc);
                        let mut list = match buckets.remove(&h) {
                            Some(l) => l,
                            None => Vec::new(),
                        };
                        let ghost old_list = list@;
                        list.push(id);
                        buckets.insert(h, list);
                        proof {
                            assert forall|x: int| 0 <= x < reg@.len() implies buckets@.contains_key(
                                key_hash(#[trigger] reg@[x]@),
                            ) && buckets@[key_hash(reg@[x]@)]@.contains(x as usize) by {
                                if x < old_reg.len() {
                                    assert(reg@[x] == old_reg[x]);
                                    if key_hash(reg@[x]@) == h {
                                        let t = choose|t: int| 0 <= t < old_buckets[h]@.len() && old_buckets[h]@[t] == x as usize;
                                        assert(old_list == old_buckets[h]@);
                                        assert(buckets@[h]@[t] == x as usize);
                                    }
                                } else {
                                    assert(buckets@[h]@[old_list.len() as int] == id);
                                }
                            }
                            assert forall|hh: u64, t: int|
                                buckets@.contains_key(hh) && 0 <= t < buckets@[hh]@.len() implies #[trigger] buckets@[hh]@[t] < reg@.len() by {
                                if hh == h {
                                    if t < old_list.len() {
                                        assert(old_list == old_buckets[h]@);
                                        assert(buckets@[hh]@[t] == old_buckets[h]@[t]);
                                    }
                                } else {
                                    assert(buckets@[hh] == old_buckets[hh]);
                                }
                            }
                        }
                        ids.push(id);
                    },
                }
            },
        }
        i = i + 1;
    }
    (ids, reg.len())
}

/// Number of rows in `lo..hi` of the given kind that have a key with identifier `x`.
pub open spec fn count_id(rows: Seq<RowView>, ids: Seq<usize>, kind: RowKind, x: usize, lo: int, hi: int) -> nat
    decreases hi - lo,
{
    if hi <= lo {
        0
    } else {
        count_id(rows, ids, kind, x, lo, hi - 1) + if rows[hi - 1].kind == kind && rows[hi - 1].key is Some && ids[hi
            - 1] == x {
            1nat
        } else {
            0nat
        }
    }
}

proof fn lemma_count_id_split(rows: Seq<RowView>, ids: Seq<usize>, kind: RowKind, x: usize, lo: int, hi: int)
    requires
        lo < hi,
    ensures
        count_id(rows, ids, kind, x, lo, hi) == count_id(rows, ids, kind, x, lo + 1, hi) + if rows[lo].kind == kind
            && rows[lo].key is Some && ids[lo] == x {
            1nat
        } else {
            0nat
        },
    decreases hi - lo,
{
    if hi > lo + 1 {
        lemma_count_id_split(rows, ids, kind, x, lo, hi - 1);
    } else {
        assert(count_id(rows, ids, kind, x, lo, lo) == 0);
        assert(count_id(rows, ids, kind, x, lo + 1, lo + 1) == 0);
    }
}

/// Counting by identifier is counting by key.
proof fn lemma_count_id_key(rows: Seq<RowView>, ids: Seq<usize>, kind: RowKind, i: int, lo: int, hi: int)
    requires
        0 <= i < rows.len(),
        0 <= lo,
        hi <= rows.len(),
        ids.len() == rows.len(),
        rows[i].key is Some,
        forall|a: int, b: int|
            0 <= a < rows.len() && 0 <= b < rows.len() && rows[a].key is Some && rows[b].key is Some ==> (
            #[trigger] ids[a] == #[trigger] ids[b] <==> rows[a].key->Some_0 == rows[b].key->Some_0),
    ensures
        count_id(rows, ids, kind, ids[i], lo, hi) == count_kk(rows, kind, rows[i].key->Some_0, lo, hi),
    decreases hi - lo,
{
    if hi > lo {
        lemma_count_id_key(rows, ids, kind, i, lo, hi - 1);
        if rows[hi - 1].key is Some {
            assert(ids[i] == ids[hi - 1] <==> rows[i].key->Some_0 == rows[hi - 1].key->Some_0);
        }
    }
}

proof fn lemma_count_id_bound(rows: Seq<RowView>, ids: Seq<usize>, kind: RowKind, x: usize, lo: int, hi: int)
    requires
        lo <= hi,
    ensures
        count_id(rows, ids, kind, x, lo, hi) <= hi - lo,
    decreases hi - lo,
{
    if hi > lo {
        lemma_count_id_bound(rows, ids, kind, x, lo, hi - 1);
    }
}

fn zeros(n: usize) -> (v: Vec<usize>)
    ensures
        v@.len() == n,
        forall|x: int| 0 <= x < n ==> #[trigger] v@[x] == 0,
{
    let mut v: Vec<usize> = Vec::new();
    let mut i: usize = 0;
    while i < n
        invariant
            i <= n,
            v@.len() == i,
            forall|x: int| 0 <= x < i ==> #[trigger] v@[x] == 0,
        decreases n - i,
    {
        v.push(0);
        i = i + 1;
    }
    v
}

fn moved_flags(rows: &Vec<Row>) -> (f: Vec<bool>)
    ensures
        f@.len() == rows@.len(),
        forall|i: int| 0 <= i < rows@.len() ==> #[trigger] f@[i] == becomes_moved(rows_view(rows@), i),
{
    let ghost rv = rows_view(rows@);
    let n = rows.len();
    let (ids, nids) = key_ids(rows);
    proof {
        assert forall|a: int, b: int|
            0 <= a < rv.len() && 0 <= b < rv.len() && rv[a].key is Some && rv[b].key is Some implies (
            #[trigger] ids@[a] == #[trigger] ids@[b] <==> rv[a].key->Some_0 == rv[b].key->Some_0) by {
            assert(rv[a] == rows@[a]@);
            assert(rv[b] == rows@[b]@);
        }
    }
    let mut tot_del = zeros(nids);
    let mut tot_ins = zeros(nids);
    let mut i: usize = 0;
    while i < n
        invariant
            i <= n,
            n == rows@.len(),
            rv == rows_view(rows@),
            ids@.len() == n,
            forall|t: int| 0 <= t < n && rows@[t].key is Some ==> #[trigger] ids@[t] < nids,
            tot_del@.len() == nids,
            tot_ins@.len() == nids,
            forall|x: int| 0 <= x < nids ==> #[trigger] tot_del@[x] == count_id(rv, ids@, RowKind::Deleted, x as usize, 0, i as int),
            forall|x: int| 0 <= x < nids ==> #[trigger] tot_ins@[x] == count_id(rv, ids@, RowKind::Inserted, x as usize, 0, i as int),
        decreases n - i,
    {
        assert(rv[i as int] == rows@[i as int]@);
        proof {
            assert forall|x: int| 0 <= x < nids implies #[trigger] count_id(rv, ids@, RowKind::Deleted, x as usize, 0, i as int) <= i
                && count_id(rv, ids@, RowKind::Inserted, x as usize, 0, i as int) <= i by {
                lemma_count_id_bound(rv, ids@, RowKind::Deleted, x as usize, 0, i as int);
                lemma_count_id_bound(rv, ids@, RowKind::Inserted, x as usize, 0, i as int);
            }
        }
        if rows[i].key.is_some() {
            let id = ids[i];
            proof {
                lemma_count_id_bound(rv, ids@, RowKind::Deleted, id, 0, i as int);
                lemma_count_id_bound(rv, ids@, RowKind::Inserted, id, 0, i as int);
                assert(tot_del@[id as int] == count_id(rv, ids@, RowKind::Deleted, id, 0, i as int));
                assert(tot_ins@[id as int] == count_id(rv, ids@, RowKind::Inserted, id, 0, i as int));
            }
            if rows[i].kind == RowKind::Deleted {
                let c = tot_del[id];
                tot_del.set(id, c + 1);
            } else if rows[i].kind == RowKind::Inserted {
                let c = tot_ins[id];
                tot_ins.set(id, c + 1);
            }
        }
        i = i + 1;
    }
    let mut f: Vec<bool> = Vec::new();
    let mut seen = zeros(nids);
    i = 0;
    while i < n
        invariant
            i <= n,
            n == rows@.len(),
            rv == rows_view(rows@),
            ids@.len() == n,
            forall|t: int| 0 <= t < n && rows@[t].key is Some ==> #[trigger] ids@[t] < nids,
            forall|a: int, b: int|
                0 <= a < rv.len() && 0 <= b < rv.len() && rv[a].key is Some && rv[b].key is Some ==> (
                #[trigger] ids@[a] == #[trigger] ids@[b] <==> rv[a].key->Some_0 == rv[b].key->Some_0),
            tot_ins@.len() == nids,
            seen@.len() == nids,
            forall|x: int| 0 <= x < nids ==> #[trigger] tot_ins@[x] == count_id(rv, ids@, RowKind::Inserted, x as usize, 0, n as int),
            forall|x: int| 0 <= x < nids ==> #[trigger] seen@[x] == count_id(rv, ids@, RowKind::Deleted, x as usize, 0, i as int),
            f@.len() == i,
            forall|t: int| 0 <= t < i ==> #[trigger] f@[t] == (rv[t].kind == RowKind::Deleted && becomes_moved(rv, t)),
        decreases n - i,
    {
        assert(rv[i as int] == rows@[i as int]@);
        proof {
            assert forall|x: int| 0 <= x < nids implies #[trigger] count_id(rv, ids@, RowKind::Deleted, x as usize, 0, i as int) <= i by {
                lemma_count_id_bound(rv, ids@, RowKind::Deleted, x as usize, 0, i as int);
            }
        }
        let mut moved = false;
        if rows[i].key.is_some() && rows[i].kind == RowKind::Deleted {
            let id = ids[i];
            proof {
                lemma_count_id_key(rv, ids@, RowKind::Deleted, i as int, 0, i as int);
                lemma_count_id_key(rv, ids@, RowKind::Inserted, i as int, 0, n as int);
            }
            moved = seen[id] < tot_ins[id];
            let c = seen[id];
            seen.set(id, c + 1);
        }
        f.push(moved);
        i = i + 1;
    }
    let mut after = zeros(nids);
    let mut j: usize = n;
    while j > 0
        invariant
            j <= n,
            n == rows@.len(),
            rv == rows_view(rows@),
            ids@.len() == n,
            forall|t: int| 0 <= t < n && rows@[t].key is Some ==> #[trigger] ids@[t] < nids,
            forall|a: int, b: int|
                0 <= a < rv.len() && 0 <= b < rv.len() && rv[a].key is Some && rv[b].key is Some ==> (
                #[trigger] ids@[a] == #[trigger] ids@[b] <==> rv[a].key->Some_0 == rv[b].key->Some_0),
            tot_del@.len() == nids,
            after@.len() == nids,
            forall|x: int| 0 <= x < nids ==> #[trigger] tot_del@[x] == count_id(rv, ids@, RowKind::Deleted, x as usize, 0, n as int),
            forall|x: int| 0 <= x < nids ==> #[trigger] after@[x] == count_id(rv, ids@, RowKind::Inserted, x as usize, j as int, n as int),
            f@.len() == n,
            forall|t: int| 0 <= t < j ==> #[trigger] f@[t] == (rv[t].kind == RowKind::Deleted && becomes_moved(rv, t)),
            forall|t: int| j <= t < n ==> #[trigger] f@[t] == becomes_moved(rv, t),
        decreases j,
    {
        let k = j - 1;
        assert(rv[k as int] == rows@[k as int]@);
        proof {
            assert forall|x: int| 0 <= x < nids implies #[trigger] count_id(rv, ids@, RowKind::Inserted, x as usize, j as int, n as int) <= n - j by {
                lemma_count_id_bound(rv, ids@, RowKind::Inserted, x as usize, j as int, n as int);
            }
            assert forall|x: int| 0 <= x < nids implies #[trigger] count_id(rv, ids@, RowKind::Inserted, x as usize, k as int, n as int)
                == count_id(rv, ids@, RowKind::Inserted, x as usize, j as int, n as int) + if rv[k as int].kind == RowKind::Inserted
                && rv[k as int].key is Some && ids@[k as int] == x as usize { 1nat } else { 0nat } by {
                lemma_count_id_split(rv, ids@, RowKind::Inserted, x as usize, k as int, n as int);
            }
        }
        if rows[k].key.is_some() && rows[k].kind == RowKind::Inserted {
            let id = ids[k];
            proof {
                lemma_count_id_key(rv, ids@, RowKind::Inserted, k as int, j as int, n as int);
                lemma_count_id_key(rv, ids@, RowKind::Deleted, k as int, 0, n as int);
            }
            let moved = after[id] < tot_del[id];
            f.set(k, moved);
            let c = after[id];
            after.set(id, c + 1);
        }
        j = k;
    }
    f
}

/// Marks every deleted/inserted pair of identical text as moved (`moves_spec`).
pub fn mark_moves(rows: Vec<Row>) -> (r: Vec<Row>)
    ensures
        rows_view(r@) == moves_spec(rows_view(rows@)),
{
    let ghost orig = rows@;
    let ghost rv = rows_view(rows@);
    let flags = moved_flags(&rows);
    let n = rows.len();
    let mut rows = rows;
    let mut tmp: Vec<Row> = Vec::new();
    while rows.len() > 0
        invariant
            n == orig.len(),
            rows@.len() + tmp@.len() == n,
            rows@ == orig.take(rows@.len() as int),
            forall|u: int| 0 <= u < tmp@.len() ==> #[trigger] tmp@[u] == orig[n - 1 - u],
        decreases rows@.len(),
    {
        let r = rows.pop().unwrap();
        tmp.push(r);
    }
    let mut out: Vec<Row> = Vec::new();
    while tmp.len() > 0
        invariant
            n == orig.len(),
            rv == rows_view(orig),
            flags@.len() == n,
            forall|i: int| 0 <= i < n ==> #[trigger] flags@[i] == becomes_moved(rv, i),
            out@.len() + tmp@.len() == n,
            forall|u: int| 0 <= u < tmp@.len() ==> #[trigger] tmp@[u] == orig[n - 1 - u],
            forall|u: int| 0 <= u < out@.len() ==> #[trigger] rows_view(out@)[u] == moves_spec(rv)[u],
        decreases tmp@.len(),
    {
        let ghost t = out@.len();
        let mut r = tmp.pop().unwrap();
        assert(r == orig[t as int]);
        if flags[out.len()] {
            r.kind = RowKind::Moved;
        }
        let ghost before = out@;
        out.push(r);
        assert forall|u: int| 0 <= u < out@.len() implies #[trigger] rows_view(out@)[u] == moves_spec(rv)[u] by {
            if u < t {
                assert(rows_view(out@)[u] == rows_view(before)[u]);
            }
        }
    }
    assert(rows_view(out@) =~= moves_spec(rv));
    out
}

// ---------------------------------------------------------------- whole diff

/// The matching keys of the blocks: their texts without white space.
pub open spec fn keys_of(bs: Seq<BlockView>) -> Seq<Seq<char>> {
    bs.map_values(|b: BlockView| normalize_spec(b.text))
}

/// The keys that an operation covers are equal on both sides.
pub open spec fn segment_equal(okeys: Seq<Seq<char>>, nkeys: Seq<Seq<char>>, op: Op) -> bool {
    forall|i: int|
        op.old_start <= i < op.old_end ==> #[trigger] okeys[i] == nkeys[i - op.old_start + op.new_start]
}

/// Equal operations relate blocks with equal keys.
pub open spec fn equal_ops_match(ops: Seq<Op>, okeys: Seq<Seq<char>>, nkeys: Seq<Seq<char>>) -> bool {
    forall|q: int|
        0 <= q < ops.len() && (#[trigger] ops[q]).tag == OpTag::Equal ==> segment_equal(okeys, nkeys, ops[q])
}

/// The block-level operations cover both lists and pair only equal keys.
pub open spec fn block_ops_ok(ops: Seq<Op>, okeys: Seq<Seq<char>>, nkeys: Seq<Seq<char>>) -> bool {
    ops_cover(ops, okeys.len() as int, nkeys.len() as int) && equal_ops_match(ops, okeys, nkeys)
}

/// The rows of one block-level operation.
pub open spec fn op_rows(op: Op, old: Seq<BlockView>, new: Seq<BlockView>) -> Option<Seq<RowView>> {
    let os = op.old_start as int;
    let ns = op.new_start as int;
    let ol = op.old_end - op.old_start;
    let nl = op.new_end - op.new_start;
    match op.tag {
        OpTag::Equal => Some(Seq::new(ol as nat, |k: int| same_row_v(old[os + k], new[ns + k]))),
        OpTag::Delete => Some(Seq::new(ol as nat, |k: int| deleted_row_v(old[os + k]))),
        OpTag::Insert => Some(Seq::new(nl as nat, |k: int| inserted_row_v(new[ns + k]))),
        OpTag::Replace => replace_rows_spec(
            old.subrange(os, op.old_end as int),
            new.subrange(ns, op.new_end as int),
        ),
    }
}

pub open spec fn ops_rows(ops: Seq<Op>, old: Seq<BlockView>, new: Seq<BlockView>) -> Option<Seq<RowView>>
    decreases ops.len(),
{
    if ops.len() == 0 {
        Some(Seq::empty())
    } else {
        match (ops_rows(ops.drop_last(), old, new), op_rows(ops.last(), old, new)) {
            (Some(a), Some(b)) => Some(a + b),
            _ => None,
        }
    }
}

/// Same rows for the blocks at equal positions.
pub open spec fn same_rows(old: Seq<BlockView>, new: Seq<BlockView>) -> Seq<RowView> {
    Seq::new(old.len(), |i: int| same_row_v(old[i], new[i]))
}

/// The report rows of two block lists; `None` when a diff of `similar` does not cover its
/// inputs or pairs unequal keys.
pub open spec fn diff_spec(old: Seq<BlockView>, new: Seq<BlockView>) -> Option<Seq<RowView>> {
    let ops = myers_ops(keys_of(old), keys_of(new));
    if block_ops_ok(ops, keys_of(old), keys_of(new)) {
        match ops_rows(ops, old, new) {
            Some(rs) => Some(moves_spec(rs)),
            None => None,
        }
    } else {
        None
    }
}

fn keys(bs: &[Block]) -> (r: Vec<String>)
    ensures
        r@.len() == bs@.len(),
        strings_view(r@) == keys_of(blocks_view(bs@)),
{
    let mut out: Vec<String> = Vec::new();
    let mut i: usize = 0;
    while i < bs.len()
        invariant
            i <= bs.len(),
            out@.len() == i,
            forall|t: int| 0 <= t < i ==> (#[trigger] out@[t])@ == normalize_spec(bs@[t].text@),
        decreases bs.len() - i,
    {
        out.push(normalize(bs[i].text.as_str()));
        i = i + 1;
    }
    assert(strings_view(out@) =~= keys_of(blocks_view(bs@)));
    out
}

fn check_equal_ops(ops: &[Op], okeys: &Vec<String>, nkeys: &Vec<String>) -> (r: bool)
    requires
        ops_cover(ops@, okeys@.len() as int, nkeys@.len() as int),
    ensures
        r == equal_ops_match(ops@, strings_view(okeys@), strings_view(nkeys@)),
{
    proof {
        lemma_ops_bounds(ops@, okeys@.len() as int, nkeys@.len() as int);
    }
    let ghost ok = strings_view(okeys@);
    let ghost nk = strings_view(nkeys@);
    let mut q: usize = 0;
    while q < ops.len()
        invariant
            q <= ops.len(),
            ok == strings_view(okeys@),
            nk == strings_view(nkeys@),
            forall|p: int|
                0 <= p < ops@.len() ==> {
                    &&& op_fits(#[trigger] ops@[p], ops@[p].old_start as int, ops@[p].new_start as int)
                    &&& ops@[p].old_end <= okeys@.len()
                    &&& ops@[p].new_end <= nkeys@.len()
                },
            forall|qq: int|
                0 <= qq < q && (#[trigger] ops@[qq]).tag == OpTag::Equal ==> segment_equal(ok, nk, ops@[qq]),
        decreases ops.len() - q,
    {
        let op = ops[q];
        assert(ops@[q as int] == op);
        assert(op_fits(ops@[q as int], op.old_start as int, op.new_start as int));
        if op.tag == OpTag::Equal {
            let len = op.old_end - op.old_start;
            let mut k: usize = 0;
            while k < len
                invariant
                    k <= len,
                    q < ops@.len(),
                    op == ops@[q as int],
                    op.tag == OpTag::Equal,
                    len == op.old_end - op.old_start,
                    op.old_start <= op.old_end <= okeys@.len(),
                    op.new_start <= op.new_end <= nkeys@.len(),
                    op.old_end - op.old_start == op.new_end - op.new_start,
                    ok == strings_view(okeys@),
                    nk == strings_view(nkeys@),
                    forall|i: int|
                        op.old_start <= i < op.old_start + k ==> #[trigger] ok[i] == nk[i - op.old_start + op.new_start],
                decreases len - k,
            {
                if okeys[op.old_start + k] != nkeys[op.new_start + k] {
                    let ghost i = op.old_start + k;
                    assert(ok[i] != nk[i - op.old_start + op.new_start]);
                    assert(!segment_equal(ok, nk, ops@[q as int]));
                    assert(!equal_ops_match(ops@, ok, nk));
                    return false;
                }
                k = k + 1;
            }
        }
        q = q + 1;
    }
    true
}

fn push_same_rows(rows: &mut Vec<Row>, old_blocks: &[Block], new_blocks: &[Block], os: usize, ns: usize, len: usize)
    requires
        os + len <= old_blocks@.len(),
        ns + len <= new_blocks@.len(),
    ensures
        rows_view(final(rows)@) == rows_view(old(rows)@) + Seq::new(
            len as nat,
            |k: int| same_row_v(blocks_view(old_blocks@)[os + k], blocks_view(new_blocks@)[ns + k]),
        ),
{
    let ghost start = rows@;
    let total = old_blocks.len();
    let total2 = new_blocks.len();
    let mut k: usize = 0;
    while k < len
        invariant
            k <= len,
            total == old_blocks@.len(),
            total2 == new_blocks@.len(),
            os + len <= old_blocks@.len(),
            ns + len <= new_blocks@.len(),
            rows_view(rows@) == rows_view(start) + Seq::new(
                k as nat,
                |t: int| same_row_v(blocks_view(old_blocks@)[os + t], blocks_view(new_blocks@)[ns + t]),
            ),
        decreases len - k,
    {
        let ghost before = rows@;
        let r = same_row(&old_blocks[os + k], &new_blocks[ns + k]);
        rows.push(r);
        assert(rows_view(rows@) =~= rows_view(before).push(r@));
        assert(Seq::new(
            (k + 1) as nat,
            |t: int| same_row_v(blocks_view(old_blocks@)[os + t], blocks_view(new_blocks@)[ns + t]),
        ) =~= Seq::new(
            k as nat,
            |t: int| same_row_v(blocks_view(old_blocks@)[os + t], blocks_view(new_blocks@)[ns + t]),
        ).push(r@));
        k = k + 1;
    }
}

fn push_deleted_rows(rows: &mut Vec<Row>, old_blocks: &[Block], os: usize, len: usize)
    requires
        os + len <= old_blocks@.len(),
    ensures
        rows_view(final(rows)@) == rows_view(old(rows)@) + Seq::new(
            len as nat,
            |k: int| deleted_row_v(blocks_view(old_blocks@)[os + k]),
        ),
{
    let ghost start = rows@;
    let total = old_blocks.len();
    let mut k: usize = 0;
    while k < len
        invariant
            k <= len,
            total == old_blocks@.len(),
            os + len <= old_blocks@.len(),
            rows_view(rows@) == rows_view(start) + Seq::new(
                k as nat,
                |t: int| deleted_row_v(blocks_view(old_blocks@)[os + t]),
            ),
        decreases len - k,
    {
        let ghost before = rows@;
        let r = deleted_row(&old_blocks[os + k]);
        rows.push(r);
        assert(rows_view(rows@) =~= rows_view(before).push(r@));
        assert(Seq::new((k + 1) as nat, |t: int| deleted_row_v(blocks_view(old_blocks@)[os + t]))
            =~= Seq::new(k as nat, |t: int| deleted_row_v(blocks_view(old_blocks@)[os + t])).push(r@));
        k = k + 1;
    }
}

fn push_inserted_rows(rows: &mut Vec<Row>, new_blocks: &[Block], ns: usize, len: usize)
    requires
        ns + len <= new_blocks@.len(),
    ensures
        rows_view(final(rows)@) == rows_view(old(rows)@) + Seq::new(
            len as nat,
            |k: int| inserted_row_v(blocks_view(new_blocks@)[ns + k]),
        ),
{
    let ghost start = rows@;
    let total = new_blocks.len();
    let mut k: usize = 0;
    while k < len
        invariant
            k <= len,
            total == new_blocks@.len(),
            ns + len <= new_blocks@.len(),
            rows_view(rows@) == rows_view(start) + Seq::new(
                k as nat,
                |t: int| inserted_row_v(blocks_view(new_blocks@)[ns + t]),
            ),
        decreases len - k,
    {
        let ghost before = rows@;
        let r = inserted_row(&new_blocks[ns + k]);
        rows.push(r);
        assert(rows_view(rows@) =~= rows_view(before).push(r@));
        assert(Seq::new((k + 1) as nat, |t: int| inserted_row_v(blocks_view(new_blocks@)[ns + t]))
            =~= Seq::new(k as nat, |t: int| inserted_row_v(blocks_view(new_blocks@)[ns + t])).push(r@));
        k = k + 1;
    }
}

fn push_op_rows(rows: &mut Vec<Row>, op: Op, old_blocks: &[Block], new_blocks: &[Block]) -> (ok: bool)
    requires
        op_fits(op, op.old_start as int, op.new_start as int),
        op.old_end <= old_blocks@.len(),
        op.new_end <= new_blocks@.len(),
    ensures
        ok ==> op_rows(op, blocks_view(old_blocks@), blocks_view(new_blocks@)) is Some,
        ok ==> rows_view(final(rows)@) == rows_view(old(rows)@) + op_rows(
            op,
            blocks_view(old_blocks@),
            blocks_view(new_blocks@),
        ).unwrap(),
        !ok ==> op_rows(op, blocks_view(old_blocks@), blocks_view(new_blocks@)) is None,
{
    let ghost ov = blocks_view(old_blocks@);
    let ghost nv = blocks_view(new_blocks@);
    match op.tag {
        OpTag::Equal => {
            push_same_rows(rows, old_blocks, new_blocks, op.old_start, op.new_start, op.old_end - op.old_start);
            true
        },
        OpTag::Delete => {
            push_deleted_rows(rows, old_blocks, op.old_start, op.old_end - op.old_start);
            true
        },
        OpTag::Insert => {
            push_inserted_rows(rows, new_blocks, op.new_start, op.new_end - op.new_start);
            true
        },
        OpTag::Replace => {
            let olds = &old_blocks[op.old_start..op.old_end];
            let news = &new_blocks[op.new_start..op.new_end];
            assert(blocks_view(olds@) =~= ov.subrange(op.old_start as int, op.old_end as int));
            assert(blocks_view(news@) =~= nv.subrange(op.new_start as int, op.new_end as int));
            match replace_rows(olds, news) {
                Some(mut v) => {
                    let ghost start = rows@;
                    let ghost added = v@;
                    rows.append(&mut v);
                    assert(rows_view(rows@) =~= rows_view(start) + rows_view(added));
                    true
                },
                None => false,
            }
        },
    }
}

proof fn lemma_ops_rows_none(ops: Seq<Op>, old: Seq<BlockView>, new: Seq<BlockView>, p: int)
    requires
        0 <= p <= ops.len(),
        ops_rows(ops.take(p), old, new) is None,
    ensures
        ops_rows(ops, old, new) is None,
    decreases ops.len() - p,
{
    if p < ops.len() {
        assert(ops.take(p + 1).drop_last() == ops.take(p));
        lemma_ops_rows_none(ops, old, new, p + 1);
    } else {
        assert(ops.take(p) == ops);
    }
}

/// The rows of given block-level operations (`ops_rows`), before moves are marked; `None` when
/// the operations do not cover both lists, or when a character diff does not cover its texts.
#[verifier::rlimit(40)]
pub fn rows_from_ops(old: &[Block], new: &[Block], ops: &[Op]) -> (r: Option<Vec<Row>>)
    ensures
        opt_rows_view(r) == if ops_cover(ops@, old@.len() as int, new@.len() as int) {
            ops_rows(ops@, blocks_view(old@), blocks_view(new@))
        } else {
            None
        },
{
    if !check_ops(ops, old.len(), new.len()) {
        return None;
    }
    proof {
        lemma_ops_fit_all(ops@, old@.len() as int, new@.len() as int);
    }
    let ghost ov = blocks_view(old@);
    let ghost nv = blocks_view(new@);
    let mut rows: Vec<Row> = Vec::new();
    let mut p: usize = 0;
    while p < ops.len()
        invariant
            p <= ops.len(),
            ov == blocks_view(old@),
            nv == blocks_view(new@),
            ops_cover(ops@, old@.len() as int, new@.len() as int),
            ops_fit_all(ops@, old@.len() as int, new@.len() as int),
            ops_rows(ops@.take(p as int), ov, nv) == Some(rows_view(rows@)),
        decreases ops.len() - p,
    {
        let op = ops[p];
        proof {
            lemma_fit_at(ops@, old@.len() as int, new@.len() as int, p as int);
        }
        let ghost before = rows@;
        assert(ops@.take(p + 1).drop_last() == ops@.take(p as int));
        if !push_op_rows(&mut rows, op, old, new) {
            proof {
                lemma_ops_rows_none(ops@, ov, nv, p + 1);
            }
            return None;
        }
        p = p + 1;
    }
    assert(ops@.take(ops.len() as int) == ops@);
    Some(rows)
}

/// Diffs two block lists into report rows (`diff_spec`): blocks are matched by their text
/// without white space, replaced regions are matched for maximal similarity, and identical
/// deleted/inserted pairs are marked as moved. `None` when a diff that `similar` returned does
/// not cover its inputs or pairs unequal keys.
pub fn diff_blocks(old: &[Block], new: &[Block]) -> (r: Option<Vec<Row>>)
    ensures
        opt_rows_view(r) == diff_spec(blocks_view(old@), blocks_view(new@)),
        keys_of(blocks_view(old@)) == keys_of(blocks_view(new@)) ==> opt_rows_view(r) == Some(
            same_rows(blocks_view(old@), blocks_view(new@)),
        ),
{
    let okeys = keys(old);
    let nkeys = keys(new);
    let ops = diff_key_lists(okeys.as_slice(), nkeys.as_slice());
    let n_old = old.len();
    proof {
        assert(okeys@.len() == old@.len());
        assert(nkeys@.len() == new@.len());
        let ov = blocks_view(old@);
        let nv = blocks_view(new@);
        if keys_of(ov) == keys_of(nv) {
            assert(ov.len() == n_old);
            crate::diff_laws::law_equal_keys_give_same_rows(ov, nv);
        }
    }
    if !check_ops(ops.as_slice(), okeys.len(), nkeys.len()) {
        return None;
    }
    if !check_equal_ops(ops.as_slice(), &okeys, &nkeys) {
        return None;
    }
    match rows_from_ops(old, new, ops.as_slice()) {
        Some(rows) => Some(mark_moves(rows)),
        None => None,
    }
}

} // verus!
