//! Properties of the block diff that hold for all inputs.
use vstd::prelude::*;
use crate::align::{Step, aligned, score, lemma_trace_score, lemma_best_is_optimal, lemma_aligned_in_range, tables_ok, lemma_trace_aligned,
    lemma_index_steps_aligned, MAX_PAIR_SCORE, small_region};
use crate::extract::BlockView;
use crate::text::is_ws;
use crate::diffing::{
    RowKind, CellView, RowView, escape_spec, Op, OpTag, op_fits, ops_end, op_rows, ops_rows,
    diff_spec, moves_spec, as_moved, becomes_moved, keys_of, myers_ops,
    step_row, steps_rows, replace_steps,
    sim_table, ok_table, diag_ok, pair_fn, pair_score,
    count_kk, all_equal_ops, same_rows, same_row_v, pairable, escape_char, char_html, HtmlState, html_fold, html_step, flush_spec, html_of_changes, changes_of,
    op_changes, run, equal_chars_match, ops_cover, utf8_len, lemma_ops_bounds, equal_ops_match, segment_equal, normalize_spec, ratio_matched, ratio_total, matched_len, char_diff_ops, cap_text,
};

verus! {

/// The cell that a row shows on one side, with the row's kind.
pub open spec fn side_entry(kind: RowKind, c: Option<CellView>) -> Seq<(RowKind, CellView)> {
    match c {
        Some(cv) => seq![(kind, cv)],
        None => Seq::empty(),
    }
}

/// The cells of the old (left) side of the rows, in row order.
pub open spec fn old_side(rows: Seq<RowView>) -> Seq<(RowKind, CellView)>
    decreases rows.len(),
{
    if rows.len() == 0 {
        Seq::empty()
    } else {
        old_side(rows.drop_last()) + side_entry(rows.last().kind, rows.last().left)
    }
}

/// The cells of the new (right) side of the rows, in row order.
pub open spec fn new_side(rows: Seq<RowView>) -> Seq<(RowKind, CellView)>
    decreases rows.len(),
{
    if rows.len() == 0 {
        Seq::empty()
    } else {
        new_side(rows.drop_last()) + side_entry(rows.last().kind, rows.last().right)
    }
}

/// A cell shows a block: it has the block's location and, unless its row is a changed row
/// (whose cells carry character markup), the block's escaped text.
pub open spec fn shows(e: (RowKind, CellView), b: BlockView) -> bool {
    &&& e.1.loc == b.loc
    &&& e.0 != RowKind::Changed ==> e.1.html == escape_spec(b.text)
}

/// The cells show the blocks `lo..hi`, one cell per block, in order.
pub open spec fn shows_range(side: Seq<(RowKind, CellView)>, bs: Seq<BlockView>, lo: int, hi: int) -> bool {
    &&& side.len() == hi - lo
    &&& forall|t: int| 0 <= t < side.len() ==> shows(#[trigger] side[t], bs[lo + t])
}

proof fn lemma_side_push(rows: Seq<RowView>, r: RowView)
    ensures
        old_side(rows.push(r)) == old_side(rows) + side_entry(r.kind, r.left),
        new_side(rows.push(r)) == new_side(rows) + side_entry(r.kind, r.right),
{
    assert(rows.push(r).drop_last() == rows);
}

proof fn lemma_side_append(a: Seq<RowView>, b: Seq<RowView>)
    ensures
        old_side(a + b) == old_side(a) + old_side(b),
        new_side(a + b) == new_side(a) + new_side(b),
    decreases b.len(),
{
    if b.len() == 0 {
        assert(a + b == a);
        assert(old_side(a) + old_side(b) == old_side(a));
        assert(new_side(a) + new_side(b) == new_side(a));
    } else {
        lemma_side_append(a, b.drop_last());
        assert((a + b).drop_last() == a + b.drop_last());
        assert((a + b).last() == b.last());
        assert(old_side(a + b) == old_side(a) + old_side(b.drop_last()) + side_entry(b.last().kind, b.last().left));
        assert(new_side(a + b) == new_side(a) + new_side(b.drop_last()) + side_entry(b.last().kind, b.last().right));
    }
}

proof fn lemma_shows_concat(s1: Seq<(RowKind, CellView)>, s2: Seq<(RowKind, CellView)>, bs: Seq<BlockView>, lo: int, mid: int, hi: int)
    requires
        shows_range(s1, bs, lo, mid),
        shows_range(s2, bs, mid, hi),
    ensures
        shows_range(s1 + s2, bs, lo, hi),
{
    let s = s1 + s2;
    assert forall|t: int| 0 <= t < s.len() implies shows(#[trigger] s[t], bs[lo + t]) by {
        if t < s1.len() {
            assert(s[t] == s1[t]);
        } else {
            assert(s[t] == s2[t - s1.len()]);
            assert(mid + (t - s1.len()) == lo + t);
        }
    }
}

/// The sides of a uniform run of rows: `len` rows built from the blocks `os + k` (old side)
/// and `ns + k` (new side) by `f`, each with the cells that `has_left`/`has_right` say.
proof fn lemma_run_sides(rows: Seq<RowView>, old: Seq<BlockView>, new: Seq<BlockView>, os: int, ns: int, has_left: bool, has_right: bool)
    requires
        forall|k: int| 0 <= k < rows.len() ==> {
            &&& (#[trigger] rows[k]).left is Some == has_left
            &&& rows[k].right is Some == has_right
            &&& rows[k].kind != RowKind::Changed
            &&& has_left ==> rows[k].left->Some_0 == (CellView { loc: old[os + k].loc, html: escape_spec(old[os + k].text) })
            &&& has_right ==> rows[k].right->Some_0 == (CellView { loc: new[ns + k].loc, html: escape_spec(new[ns + k].text) })
        },
    ensures
        has_left ==> shows_range(old_side(rows), old, os, os + rows.len()),
        !has_left ==> old_side(rows).len() == 0,
        has_right ==> shows_range(new_side(rows), new, ns, ns + rows.len()),
        !has_right ==> new_side(rows).len() == 0,
    decreases rows.len(),
{
    if rows.len() > 0 {
        let rest = rows.drop_last();
        lemma_run_sides(rest, old, new, os, ns, has_left, has_right);
        assert(rest.push(rows.last()) == rows);
        lemma_side_push(rest, rows.last());
        let k = rows.len() - 1;
        assert(rows.last() == rows[k]);
        if has_left {
            let s = old_side(rows);
            assert forall|t: int| 0 <= t < s.len() implies shows(#[trigger] s[t], old[os + t]) by {
                if t < k {
                    assert(s[t] == old_side(rest)[t]);
                }
            }
        }
        if has_right {
            let s = new_side(rows);
            assert forall|t: int| 0 <= t < s.len() implies shows(#[trigger] s[t], new[ns + t]) by {
                if t < k {
                    assert(s[t] == new_side(rest)[t]);
                }
            }
        }
    }
}

/// The rows of an aligned matching show the first `i` old and the first `j` new blocks.
proof fn lemma_steps_sides(okf: spec_fn(int, int) -> bool, steps: Seq<Step>, olds: Seq<BlockView>, news: Seq<BlockView>, i: int, j: int, rs: Seq<RowView>)
    requires
        aligned(okf, steps, i, j),
        steps_rows(steps, olds, news) == Some(rs),
    ensures
        shows_range(old_side(rs), olds, 0, i),
        shows_range(new_side(rs), news, 0, j),
    decreases steps.len(),
{
    if steps.len() > 0 {
        let rest = steps.drop_last();
        let a = steps_rows(rest, olds, news)->Some_0;
        let r = step_row(steps.last(), olds, news)->Some_0;
        assert(rs == a.push(r));
        lemma_side_push(a, r);
        match steps.last() {
            Step::Pair(x, y) => {
                lemma_steps_sides(okf, rest, olds, news, i - 1, j - 1, a);
                let e1 = seq![(r.kind, r.left->Some_0)];
                let e2 = seq![(r.kind, r.right->Some_0)];
                assert(shows_range(e1, olds, i - 1, i));
                assert(shows_range(e2, news, j - 1, j));
                lemma_shows_concat(old_side(a), e1, olds, 0, i - 1, i);
                lemma_shows_concat(new_side(a), e2, news, 0, j - 1, j);
            },
            Step::Del(x) => {
                lemma_steps_sides(okf, rest, olds, news, i - 1, j, a);
                let e1 = seq![(r.kind, r.left->Some_0)];
                assert(shows_range(e1, olds, i - 1, i));
                lemma_shows_concat(old_side(a), e1, olds, 0, i - 1, i);
                assert(new_side(rs) == new_side(a));
            },
            Step::Ins(y) => {
                lemma_steps_sides(okf, rest, olds, news, i, j - 1, a);
                let e2 = seq![(r.kind, r.right->Some_0)];
                assert(shows_range(e2, news, j - 1, j));
                lemma_shows_concat(new_side(a), e2, news, 0, j - 1, j);
                assert(old_side(rs) == old_side(a));
            },
        }
    } else {
        assert(rs == Seq::<RowView>::empty());
    }
}

proof fn lemma_matched_nonneg(ops: Seq<Op>)
    ensures
        matched_len(ops) >= 0,
    decreases ops.len(),
{
    if ops.len() > 0 {
        lemma_matched_nonneg(ops.drop_last());
    }
}

proof fn lemma_pair_score_bound(a: Seq<char>, b: Seq<char>)
    ensures
        pair_score(a, b) <= MAX_PAIR_SCORE,
{
    let matched = ratio_matched(a, b);
    let total = ratio_total(a, b);
    lemma_matched_nonneg(char_diff_ops(cap_text(a), cap_text(b)));
    let mt = if matched <= total { matched } else { total };
    if total != 0 {
        assert(0 <= (2 * mt * 1_048_576) / total <= 2 * 1_048_576) by (nonlinear_arith)
            requires 0 <= mt <= total, total > 0;
    }
}

/// Every matching step of a replaced region is an aligned matching of all its blocks.
proof fn lemma_replace_steps_aligned(olds: Seq<BlockView>, news: Seq<BlockView>)
    requires
        olds.len() <= usize::MAX,
        news.len() <= usize::MAX,
    ensures
        exists|okf: spec_fn(int, int) -> bool| aligned(okf, replace_steps(olds, news), olds.len() as int, news.len() as int),
{
    let n = olds.len();
    let m = news.len();
    if small_region(n as int, m as int) {
        let sim = sim_table(olds, news);
        let ok = ok_table(olds, news);
        assert forall|i: int, j: int| 0 <= i < n && 0 <= j < m implies #[trigger] sim[i][j] <= MAX_PAIR_SCORE by {
            lemma_pair_score_bound(olds[i].text, news[j].text);
        }
        assert(tables_ok(sim, ok, n as int, m as int));
        lemma_trace_aligned(sim, ok, n as int, m as int, n, m);
        let okf = |a: int, b: int| ok[a][b];
        assert(aligned(okf, replace_steps(olds, news), n as int, m as int));
    } else {
        let okd = diag_ok(olds, news);
        lemma_index_steps_aligned(pair_fn(olds, news), okd, n, m);
        assert(aligned(pair_fn(olds, news), replace_steps(olds, news), n as int, m as int));
    }
}

/// The rows of one operation show the old blocks and new blocks that it covers.
proof fn lemma_op_sides(op: Op, old: Seq<BlockView>, new: Seq<BlockView>, rs: Seq<RowView>)
    requires
        op_fits(op, op.old_start as int, op.new_start as int),
        op.old_end <= old.len(),
        op.new_end <= new.len(),
        op_rows(op, old, new) == Some(rs),
    ensures
        shows_range(old_side(rs), old, op.old_start as int, op.old_end as int),
        shows_range(new_side(rs), new, op.new_start as int, op.new_end as int),
{
    let os = op.old_start as int;
    let ns = op.new_start as int;
    match op.tag {
        OpTag::Equal => {
            lemma_run_sides(rs, old, new, os, ns, true, true);
        },
        OpTag::Delete => {
            lemma_run_sides(rs, old, new, os, ns, true, false);
        },
        OpTag::Insert => {
            lemma_run_sides(rs, old, new, os, ns, false, true);
        },
        OpTag::Replace => {
            let olds = old.subrange(os, op.old_end as int);
            let news = new.subrange(ns, op.new_end as int);
            lemma_replace_steps_aligned(olds, news);
            let okf = choose|okf: spec_fn(int, int) -> bool|
                aligned(okf, replace_steps(olds, news), olds.len() as int, news.len() as int);
            lemma_steps_sides(okf, replace_steps(olds, news), olds, news, olds.len() as int, news.len() as int, rs);
            let so = old_side(rs);
            let sn = new_side(rs);
            assert forall|t: int| 0 <= t < so.len() implies shows(#[trigger] so[t], old[os + t]) by {
                assert(shows(so[t], olds[0 + t]));
            }
            assert forall|t: int| 0 <= t < sn.len() implies shows(#[trigger] sn[t], new[ns + t]) by {
                assert(shows(sn[t], news[0 + t]));
            }
        },
    }
}

/// The rows of operations that end at `(n, m)` show the old blocks `0..n` and new blocks `0..m`.
proof fn lemma_ops_sides(ops: Seq<Op>, old: Seq<BlockView>, new: Seq<BlockView>, n: int, m: int, rs: Seq<RowView>)
    requires
        ops_end(ops) == Some((n, m)),
        n <= old.len(),
        m <= new.len(),
        ops_rows(ops, old, new) == Some(rs),
    ensures
        shows_range(old_side(rs), old, 0, n),
        shows_range(new_side(rs), new, 0, m),
    decreases ops.len(),
{
    if ops.len() == 0 {
        assert(rs == Seq::<RowView>::empty());
    } else {
        let rest = ops.drop_last();
        let op = ops.last();
        let (oi, ni) = ops_end(rest)->Some_0;
        let a = ops_rows(rest, old, new)->Some_0;
        let b = op_rows(op, old, new)->Some_0;
        assert(rs == a + b);
        lemma_ops_sides(rest, old, new, oi, ni, a);
        lemma_op_sides(op, old, new, b);
        lemma_side_append(a, b);
        lemma_shows_concat(old_side(a), old_side(b), old, 0, oi, n);
        lemma_shows_concat(new_side(a), new_side(b), new, 0, ni, m);
    }
}

/// Two row lists that differ only in kinds, with changed rows in the same places, have the
/// same cells on each side.
proof fn lemma_pointwise_sides(r1: Seq<RowView>, r2: Seq<RowView>)
    requires
        r1.len() == r2.len(),
        forall|i: int| 0 <= i < r1.len() ==> {
            &&& (#[trigger] r2[i]).left == r1[i].left
            &&& r2[i].right == r1[i].right
            &&& (r2[i].kind == RowKind::Changed) == (r1[i].kind == RowKind::Changed)
        },
    ensures
        old_side(r2).len() == old_side(r1).len(),
        new_side(r2).len() == new_side(r1).len(),
        forall|t: int| 0 <= t < old_side(r1).len() ==> {
            &&& (#[trigger] old_side(r2)[t]).1 == old_side(r1)[t].1
            &&& (old_side(r2)[t].0 == RowKind::Changed) == (old_side(r1)[t].0 == RowKind::Changed)
        },
        forall|t: int| 0 <= t < new_side(r1).len() ==> {
            &&& (#[trigger] new_side(r2)[t]).1 == new_side(r1)[t].1
            &&& (new_side(r2)[t].0 == RowKind::Changed) == (new_side(r1)[t].0 == RowKind::Changed)
        },
    decreases r1.len(),
{
    if r1.len() > 0 {
        let k = r1.len() - 1;
        assert(r2[k] == r2.last());
        assert(r1[k] == r1.last());
        lemma_pointwise_sides(r1.drop_last(), r2.drop_last());
    }
}

/// Every paragraph of both versions appears in the report exactly once and in document
/// order: the left cells of the rows show the old blocks, the right cells the new blocks,
/// each with its location and, outside changed rows, its escaped text.
pub proof fn law_rows_show_every_block_in_order(old: Seq<BlockView>, new: Seq<BlockView>)
    requires
        old.len() <= usize::MAX,
        new.len() <= usize::MAX,
        diff_spec(old, new) is Some,
    ensures
        shows_range(old_side(diff_spec(old, new)->Some_0), old, 0, old.len() as int),
        shows_range(new_side(diff_spec(old, new)->Some_0), new, 0, new.len() as int),
{
    let ops = myers_ops(keys_of(old), keys_of(new));
    let rs = ops_rows(ops, old, new)->Some_0;
    assert(keys_of(old).len() == old.len());
    assert(keys_of(new).len() == new.len());
    lemma_ops_sides(ops, old, new, old.len() as int, new.len() as int, rs);
    let mv = moves_spec(rs);
    assert(diff_spec(old, new)->Some_0 == mv);
    assert forall|i: int| 0 <= i < rs.len() implies {
        &&& (#[trigger] mv[i]).left == rs[i].left
        &&& mv[i].right == rs[i].right
        &&& (mv[i].kind == RowKind::Changed) == (rs[i].kind == RowKind::Changed)
    } by {
        if becomes_moved(rs, i) {
            assert(mv[i] == as_moved(rs[i]));
        } else {
            assert(mv[i] == rs[i]);
        }
    }
    lemma_pointwise_sides(rs, mv);
    let so = old_side(mv);
    let sn = new_side(mv);
    assert forall|t: int| 0 <= t < so.len() implies shows(#[trigger] so[t], old[0 + t]) by {
        assert(shows(old_side(rs)[t], old[0 + t]));
    }
    assert forall|t: int| 0 <= t < sn.len() implies shows(#[trigger] sn[t], new[0 + t]) by {
        assert(shows(new_side(rs)[t], new[0 + t]));
    }
}

proof fn lemma_count_split(rows: Seq<RowView>, kind: RowKind, k: Seq<char>, lo: int, mid: int, hi: int)
    requires
        lo <= mid <= hi,
    ensures
        count_kk(rows, kind, k, lo, hi) == count_kk(rows, kind, k, lo, mid) + count_kk(rows, kind, k, mid, hi),
    decreases hi - mid,
{
    if hi > mid {
        lemma_count_split(rows, kind, k, lo, mid, hi - 1);
    }
}

pub open spec fn min_int(a: int, b: int) -> int {
    if a <= b { a } else { b }
}

/// Deleted rows of key `k` that stay deleted, counted over the first `hi` rows.
proof fn lemma_moves_deleted_prefix(rows: Seq<RowView>, k: Seq<char>, hi: int)
    requires
        0 <= hi <= rows.len(),
    ensures
        count_kk(moves_spec(rows), RowKind::Deleted, k, 0, hi) == if count_kk(rows, RowKind::Deleted, k, 0, hi)
            > count_kk(rows, RowKind::Inserted, k, 0, rows.len() as int) {
            count_kk(rows, RowKind::Deleted, k, 0, hi) - count_kk(rows, RowKind::Inserted, k, 0, rows.len() as int)
        } else {
            0
        },
    decreases hi,
{
    if hi > 0 {
        lemma_moves_deleted_prefix(rows, k, hi - 1);
        let mv = moves_spec(rows);
        let i = hi - 1;
        if becomes_moved(rows, i) {
            assert(mv[i] == as_moved(rows[i]));
        } else {
            assert(mv[i] == rows[i]);
        }
    }
}

/// Inserted rows of key `k` that stay inserted, counted over the rows from `lo` on.
proof fn lemma_moves_inserted_suffix(rows: Seq<RowView>, k: Seq<char>, lo: int)
    requires
        0 <= lo <= rows.len(),
    ensures
        count_kk(moves_spec(rows), RowKind::Inserted, k, lo, rows.len() as int) == if count_kk(
            rows,
            RowKind::Inserted,
            k,
            lo,
            rows.len() as int,
        ) > count_kk(rows, RowKind::Deleted, k, 0, rows.len() as int) {
            count_kk(rows, RowKind::Inserted, k, lo, rows.len() as int) - count_kk(
                rows,
                RowKind::Deleted,
                k,
                0,
                rows.len() as int,
            )
        } else {
            0
        },
    decreases rows.len() - lo,
{
    let n = rows.len() as int;
    let mv = moves_spec(rows);
    if lo < n {
        lemma_moves_inserted_suffix(rows, k, lo + 1);
        lemma_count_split(rows, RowKind::Inserted, k, lo, lo + 1, n);
        lemma_count_split(mv, RowKind::Inserted, k, lo, lo + 1, n);
        assert(count_kk(rows, RowKind::Inserted, k, lo, lo + 1) == count_kk(rows, RowKind::Inserted, k, lo, lo) + if rows[lo].kind == RowKind::Inserted && rows[lo].key == Some(k) { 1nat } else { 0nat });
        assert(count_kk(mv, RowKind::Inserted, k, lo, lo + 1) == count_kk(mv, RowKind::Inserted, k, lo, lo) + if mv[lo].kind == RowKind::Inserted && mv[lo].key == Some(k) { 1nat } else { 0nat });
        if becomes_moved(rows, lo) {
            assert(mv[lo] == as_moved(rows[lo]));
        } else {
            assert(mv[lo] == rows[lo]);
        }
    }
}

/// Rows of key `k` keep their number across the deleted, inserted and moved kinds.
proof fn lemma_moves_conserve(rows: Seq<RowView>, k: Seq<char>, hi: int)
    requires
        0 <= hi <= rows.len(),
    ensures
        count_kk(moves_spec(rows), RowKind::Deleted, k, 0, hi) + count_kk(moves_spec(rows), RowKind::Inserted, k, 0, hi)
            + count_kk(moves_spec(rows), RowKind::Moved, k, 0, hi) == count_kk(rows, RowKind::Deleted, k, 0, hi)
            + count_kk(rows, RowKind::Inserted, k, 0, hi) + count_kk(rows, RowKind::Moved, k, 0, hi),
    decreases hi,
{
    if hi > 0 {
        lemma_moves_conserve(rows, k, hi - 1);
        let mv = moves_spec(rows);
        let i = hi - 1;
        if becomes_moved(rows, i) {
            assert(mv[i] == as_moved(rows[i]));
        } else {
            assert(mv[i] == rows[i]);
        }
    }
}

/// Deleted and inserted paragraphs with identical text are paired up as moves, as far as they
/// go: for each text `k` (the key that deleted and inserted rows carry is their block's exact
/// text, see `law_unmatched_rows_carry_their_text`), with `d` deleted and `i` inserted rows of it,
/// `min(d, i)` of each become moved rows and the rest keep their kind, so afterwards no text
/// has both a deleted and an inserted row left.
pub proof fn law_moves_pair_identical_texts(rows: Seq<RowView>, k: Seq<char>)
    ensures
        ({
            let n = rows.len() as int;
            let d = count_kk(rows, RowKind::Deleted, k, 0, n) as int;
            let i = count_kk(rows, RowKind::Inserted, k, 0, n) as int;
            let mv = moves_spec(rows);
            &&& mv.len() == rows.len()
            &&& count_kk(mv, RowKind::Deleted, k, 0, n) == d - min_int(d, i)
            &&& count_kk(mv, RowKind::Inserted, k, 0, n) == i - min_int(d, i)
            &&& count_kk(mv, RowKind::Moved, k, 0, n) == count_kk(rows, RowKind::Moved, k, 0, n) + 2 * min_int(d, i)
            &&& count_kk(mv, RowKind::Deleted, k, 0, n) == 0 || count_kk(mv, RowKind::Inserted, k, 0, n) == 0
        }),
{
    let n = rows.len() as int;
    lemma_moves_deleted_prefix(rows, k, n);
    lemma_moves_inserted_suffix(rows, k, 0);
    lemma_moves_conserve(rows, k, n);
}

proof fn lemma_aligned_pairs_ok(okf: spec_fn(int, int) -> bool, steps: Seq<Step>, i: int, j: int)
    requires
        aligned(okf, steps, i, j),
    ensures
        forall|p: int|
            0 <= p < steps.len() ==> ((#[trigger] steps[p]) matches Step::Pair(a, b) ==> okf(a as int, b as int)),
    decreases steps.len(),
{
    if steps.len() > 0 {
        let rest = steps.drop_last();
        match steps.last() {
            Step::Pair(a, b) => lemma_aligned_pairs_ok(okf, rest, i - 1, j - 1),
            Step::Del(a) => lemma_aligned_pairs_ok(okf, rest, i - 1, j),
            Step::Ins(b) => lemma_aligned_pairs_ok(okf, rest, i, j - 1),
        }
        assert forall|p: int| 0 <= p < steps.len() implies ((#[trigger] steps[p]) matches Step::Pair(a, b) ==> okf(a as int, b as int)) by {
            if p < steps.len() - 1 {
                assert(steps[p] == rest[p]);
            }
        }
    }
}

/// A replaced old paragraph is shown as changed against a new one only when their similarity
/// (twice the matched characters over all characters, of the first 1500 of each) is at least
/// 0.3; every other replaced paragraph becomes a deletion or an insertion.
pub proof fn law_pairs_meet_threshold(olds: Seq<BlockView>, news: Seq<BlockView>)
    requires
        olds.len() <= usize::MAX,
        news.len() <= usize::MAX,
    ensures
        forall|p: int|
            0 <= p < replace_steps(olds, news).len() ==> ((#[trigger] replace_steps(olds, news)[p]) matches Step::Pair(
                a,
                b,
            ) ==> a < olds.len() && b < news.len() && pairable(olds[a as int].text, news[b as int].text)),
{
    let n = olds.len();
    let m = news.len();
    let steps = replace_steps(olds, news);
    if small_region(n as int, m as int) {
        let sim = sim_table(olds, news);
        let ok = ok_table(olds, news);
        assert forall|i: int, j: int| 0 <= i < n && 0 <= j < m implies #[trigger] sim[i][j] <= MAX_PAIR_SCORE by {
            lemma_pair_score_bound(olds[i].text, news[j].text);
        }
        lemma_trace_aligned(sim, ok, n as int, m as int, n, m);
        let okf = |a: int, b: int| ok[a][b];
        lemma_aligned_pairs_ok(okf, steps, n as int, m as int);
        lemma_aligned_in_range(okf, steps, n as int, m as int);
        assert forall|p: int| 0 <= p < steps.len() implies ((#[trigger] steps[p]) matches Step::Pair(a, b) ==> a < n
            && b < m && pairable(olds[a as int].text, news[b as int].text)) by {
            if let Step::Pair(a, b) = steps[p] {
                assert(okf(a as int, b as int));
                assert(ok[a as int][b as int] == pairable(olds[a as int].text, news[b as int].text));
            }
        }
    } else {
        lemma_index_steps_aligned(pair_fn(olds, news), diag_ok(olds, news), n, m);
        lemma_aligned_pairs_ok(pair_fn(olds, news), steps, n as int, m as int);
        lemma_aligned_in_range(pair_fn(olds, news), steps, n as int, m as int);
    }
}

proof fn lemma_aligned_transfer(f: spec_fn(int, int) -> bool, g: spec_fn(int, int) -> bool, steps: Seq<Step>, i: int, j: int, n: int, m: int)
    requires
        aligned(f, steps, i, j),
        0 <= i <= n,
        0 <= j <= m,
        forall|a: int, b: int| 0 <= a < n && 0 <= b < m ==> #[trigger] f(a, b) == g(a, b),
    ensures
        aligned(g, steps, i, j),
    decreases steps.len(),
{
    if steps.len() > 0 {
        let rest = steps.drop_last();
        match steps.last() {
            Step::Pair(a, b) => {
                assert(f(i - 1, j - 1) == g(i - 1, j - 1));
                lemma_aligned_transfer(f, g, rest, i - 1, j - 1, n, m);
            },
            Step::Del(a) => lemma_aligned_transfer(f, g, rest, i - 1, j, n, m),
            Step::Ins(b) => lemma_aligned_transfer(f, g, rest, i, j - 1, n, m),
        }
    }
}

/// In a replaced region of at most 40000 block pairs, no order-preserving matching of pairable
/// paragraphs has a larger total similarity than the matching the diff uses.
pub proof fn law_replace_matching_is_optimal(olds: Seq<BlockView>, news: Seq<BlockView>, steps: Seq<Step>)
    requires
        olds.len() <= usize::MAX,
        news.len() <= usize::MAX,
        small_region(olds.len() as int, news.len() as int),
        aligned(pair_fn(olds, news), steps, olds.len() as int, news.len() as int),
    ensures
        aligned(pair_fn(olds, news), replace_steps(olds, news), olds.len() as int, news.len() as int),
        score(sim_table(olds, news), steps) <= score(sim_table(olds, news), replace_steps(olds, news)),
{
    let n = olds.len() as int;
    let m = news.len() as int;
    let sim = sim_table(olds, news);
    let ok = ok_table(olds, news);
    assert forall|i: int, j: int| 0 <= i < n && 0 <= j < m implies #[trigger] sim[i][j] <= MAX_PAIR_SCORE by {
        lemma_pair_score_bound(olds[i].text, news[j].text);
    }
    let okf = |a: int, b: int| ok[a][b];
    assert forall|a: int, b: int| 0 <= a < n && 0 <= b < m implies #[trigger] pair_fn(olds, news)(a, b) == okf(a, b) by {}
    assert forall|a: int, b: int| 0 <= a < n && 0 <= b < m implies #[trigger] okf(a, b) == pair_fn(olds, news)(a, b) by {}
    lemma_aligned_transfer(pair_fn(olds, news), okf, steps, n, m, n, m);
    lemma_best_is_optimal(sim, ok, n, m, steps, n, m);
    lemma_trace_score(sim, ok, n, m, n as nat, m as nat);
    lemma_trace_aligned(sim, ok, n, m, n as nat, m as nat);
    lemma_aligned_transfer(okf, pair_fn(olds, news), replace_steps(olds, news), n, m, n, m);
}

/// Escaped text holds no `<`, `>` or `"`: it can neither open nor close markup, nor leave
/// an attribute value.
pub proof fn law_escape_has_no_markup(s: Seq<char>)
    ensures
        forall|i: int|
            0 <= i < escape_spec(s).len() ==> {
                &&& #[trigger] escape_spec(s)[i] != '<'
                &&& escape_spec(s)[i] != '>'
                &&& escape_spec(s)[i] != '"'
            },
    decreases s.len(),
{
    if s.len() > 0 {
        law_escape_has_no_markup(s.drop_last());
        let a = escape_spec(s.drop_last());
        let e = escape_char(s.last());
        assert(escape_spec(s) == a + e);
        assert forall|i: int| 0 <= i < escape_spec(s).len() implies {
            &&& #[trigger] escape_spec(s)[i] != '<'
            &&& escape_spec(s)[i] != '>'
            &&& escape_spec(s)[i] != '"'
        } by {
            if i < a.len() {
                assert(escape_spec(s)[i] == a[i]);
            } else {
                assert(escape_spec(s)[i] == e[i - a.len()]);
            }
        }
    }
}

/// A row has the cells its kind calls for: same and changed rows both, a deleted row only
/// the old one, an inserted row only the new one, a moved row exactly one.
pub open spec fn row_shape_ok(r: RowView) -> bool {
    match r.kind {
        RowKind::Same | RowKind::Changed => r.left is Some && r.right is Some,
        RowKind::Deleted => r.left is Some && r.right is None,
        RowKind::Inserted => r.left is None && r.right is Some,
        RowKind::Moved => (r.left is Some) != (r.right is Some),
    }
}

pub open spec fn all_shaped(rows: Seq<RowView>) -> bool {
    forall|i: int| 0 <= i < rows.len() ==> row_shape_ok(#[trigger] rows[i])
}

proof fn lemma_steps_shaped(steps: Seq<Step>, olds: Seq<BlockView>, news: Seq<BlockView>, rs: Seq<RowView>)
    requires
        steps_rows(steps, olds, news) == Some(rs),
    ensures
        all_shaped(rs),
    decreases steps.len(),
{
    if steps.len() > 0 {
        let a = steps_rows(steps.drop_last(), olds, news)->Some_0;
        lemma_steps_shaped(steps.drop_last(), olds, news, a);
        let r = step_row(steps.last(), olds, news)->Some_0;
        assert(rs == a.push(r));
        assert forall|i: int| 0 <= i < rs.len() implies row_shape_ok(#[trigger] rs[i]) by {
            if i < a.len() {
                assert(rs[i] == a[i]);
            }
        }
    }
}

proof fn lemma_ops_shaped(ops: Seq<Op>, old: Seq<BlockView>, new: Seq<BlockView>, rs: Seq<RowView>)
    requires
        ops_rows(ops, old, new) == Some(rs),
    ensures
        all_shaped(rs),
    decreases ops.len(),
{
    if ops.len() > 0 {
        let a = ops_rows(ops.drop_last(), old, new)->Some_0;
        let b = op_rows(ops.last(), old, new)->Some_0;
        lemma_ops_shaped(ops.drop_last(), old, new, a);
        let op = ops.last();
        if op.tag == OpTag::Replace {
            let olds = old.subrange(op.old_start as int, op.old_end as int);
            let news = new.subrange(op.new_start as int, op.new_end as int);
            lemma_steps_shaped(replace_steps(olds, news), olds, news, b);
        }
        assert(rs == a + b);
        assert forall|i: int| 0 <= i < rs.len() implies row_shape_ok(#[trigger] rs[i]) by {
            if i < a.len() {
                assert(rs[i] == a[i]);
            } else {
                assert(rs[i] == b[i - a.len()]);
            }
        }
    }
}

/// Every row of a diff has the cells its kind calls for: matched paragraphs (same and changed
/// rows) stand side by side in one row, a deleted paragraph has only its old cell, an inserted
/// one only its new cell, and a moved one exactly one of the two.
pub proof fn law_rows_have_their_cells(old: Seq<BlockView>, new: Seq<BlockView>)
    requires
        diff_spec(old, new) is Some,
    ensures
        all_shaped(diff_spec(old, new)->Some_0),
{
    let ops = myers_ops(keys_of(old), keys_of(new));
    let rs = ops_rows(ops, old, new)->Some_0;
    lemma_ops_shaped(ops, old, new, rs);
    let mv = moves_spec(rs);
    assert forall|i: int| 0 <= i < mv.len() implies row_shape_ok(#[trigger] mv[i]) by {
        assert(row_shape_ok(rs[i]));
        if becomes_moved(rs, i) {
            assert(mv[i] == as_moved(rs[i]));
        } else {
            assert(mv[i] == rs[i]);
        }
    }
}

/// How many old blocks the rows before row `r` show.
pub open spec fn old_pos(rows: Seq<RowView>, r: int) -> int {
    old_side(rows.take(r)).len() as int
}

/// How many new blocks the rows before row `r` show.
pub open spec fn new_pos(rows: Seq<RowView>, r: int) -> int {
    new_side(rows.take(r)).len() as int
}

/// Row `r` matches the blocks it shows, counted from `lo` and `ln`: a same row shows blocks with
/// the same text up to white space, a changed row blocks similar enough to pair.
pub open spec fn row_matches(rows: Seq<RowView>, r: int, old: Seq<BlockView>, new: Seq<BlockView>, lo: int, ln: int) -> bool {
    let a = lo + old_pos(rows, r);
    let b = ln + new_pos(rows, r);
    &&& rows[r].kind == RowKind::Same ==> normalize_spec(old[a].text) == normalize_spec(new[b].text)
    &&& rows[r].kind == RowKind::Changed ==> pairable(old[a].text, new[b].text)
}

pub open spec fn rows_match(rows: Seq<RowView>, old: Seq<BlockView>, new: Seq<BlockView>, lo: int, ln: int) -> bool {
    forall|r: int| 0 <= r < rows.len() ==> #[trigger] row_matches(rows, r, old, new, lo, ln)
}

proof fn lemma_match_concat(a: Seq<RowView>, b: Seq<RowView>, old: Seq<BlockView>, new: Seq<BlockView>, lo: int, ln: int)
    requires
        rows_match(a, old, new, lo, ln),
        rows_match(b, old, new, lo + old_side(a).len(), ln + new_side(a).len()),
    ensures
        rows_match(a + b, old, new, lo, ln),
{
    let c = a + b;
    assert forall|r: int| 0 <= r < c.len() implies #[trigger] row_matches(c, r, old, new, lo, ln) by {
        if r < a.len() {
            assert(c.take(r) == a.take(r));
            assert(c[r] == a[r]);
            assert(row_matches(a, r, old, new, lo, ln));
        } else {
            let r2 = r - a.len();
            assert(c.take(r) == a + b.take(r2));
            lemma_side_append(a, b.take(r2));
            assert(c[r] == b[r2]);
            assert(row_matches(b, r2, old, new, lo + old_side(a).len(), ln + new_side(a).len()));
        }
    }
}

/// The rows of an aligned matching of `olds` (at `os` in `old`) and `news` (at `ns` in `new`)
/// pair only blocks for which `okf` holds, and `okf` holds only of pairable blocks.
proof fn lemma_steps_match(
    okf: spec_fn(int, int) -> bool,
    steps: Seq<Step>,
    old: Seq<BlockView>,
    new: Seq<BlockView>,
    os: int,
    ns: int,
    n: int,
    m: int,
    i: int,
    j: int,
    rs: Seq<RowView>,
)
    requires
        0 <= os,
        0 <= ns,
        os + n <= old.len(),
        ns + m <= new.len(),
        i <= n,
        j <= m,
        aligned(okf, steps, i, j),
        steps_rows(steps, old.subrange(os, os + n), new.subrange(ns, ns + m)) == Some(rs),
        forall|a: int, b: int| 0 <= a < n && 0 <= b < m && #[trigger] okf(a, b) ==> pairable(old[os + a].text, new[ns + b].text),
    ensures
        rows_match(rs, old, new, os, ns),
    decreases steps.len(),
{
    let olds = old.subrange(os, os + n);
    let news = new.subrange(ns, ns + m);
    if steps.len() > 0 {
        let rest = steps.drop_last();
        let a = steps_rows(rest, olds, news)->Some_0;
        let r = step_row(steps.last(), olds, news)->Some_0;
        assert(rs == a.push(r));
        let (pi, pj) = match steps.last() {
            Step::Pair(x, y) => (i - 1, j - 1),
            Step::Del(x) => (i - 1, j),
            Step::Ins(y) => (i, j - 1),
        };
        lemma_steps_match(okf, rest, old, new, os, ns, n, m, pi, pj, a);
        lemma_steps_sides(okf, rest, olds, news, pi, pj, a);
        let last = a.len() as int;
        assert forall|k: int| 0 <= k < rs.len() implies #[trigger] row_matches(rs, k, old, new, os, ns) by {
            if k < last {
                assert(rs.take(k) == a.take(k));
                assert(rs[k] == a[k]);
                assert(row_matches(a, k, old, new, os, ns));
            } else {
                assert(rs.take(k) == a);
                assert(rs[k] == r);
                if let Step::Pair(x, y) = steps.last() {
                    assert(okf(i - 1, j - 1));
                    assert(olds[i - 1] == old[os + i - 1]);
                    assert(news[j - 1] == new[ns + j - 1]);
                }
            }
        }
    }
}

/// The rows of one operation match the blocks they show, from the operation's start.
proof fn lemma_op_match(ops: Seq<Op>, q: int, old: Seq<BlockView>, new: Seq<BlockView>, rs: Seq<RowView>)
    requires
        0 <= q < ops.len(),
        op_fits(ops[q], ops[q].old_start as int, ops[q].new_start as int),
        ops[q].old_end <= old.len(),
        ops[q].new_end <= new.len(),
        equal_ops_match(ops, keys_of(old), keys_of(new)),
        op_rows(ops[q], old, new) == Some(rs),
    ensures
        rows_match(rs, old, new, ops[q].old_start as int, ops[q].new_start as int),
{
    let op = ops[q];
    let os = op.old_start as int;
    let ns = op.new_start as int;
    match op.tag {
        OpTag::Equal => {
            assert(segment_equal(keys_of(old), keys_of(new), op));
            assert forall|r: int| 0 <= r < rs.len() implies #[trigger] row_matches(rs, r, old, new, os, ns) by {
                let pre = rs.take(r);
                assert forall|k: int| 0 <= k < pre.len() implies {
                    &&& (#[trigger] pre[k]).left is Some == true
                    &&& pre[k].right is Some == true
                    &&& pre[k].kind != RowKind::Changed
                    &&& true ==> pre[k].left->Some_0 == (CellView { loc: old[os + k].loc, html: escape_spec(old[os + k].text) })
                    &&& true ==> pre[k].right->Some_0 == (CellView { loc: new[ns + k].loc, html: escape_spec(new[ns + k].text) })
                } by {
                    assert(pre[k] == rs[k]);
                }
                lemma_run_sides(pre, old, new, os, ns, true, true);
                assert(keys_of(old)[os + r] == keys_of(new)[os + r - os + ns]);
            }
        },
        OpTag::Delete => {},
        OpTag::Insert => {},
        OpTag::Replace => {
            let n = op.old_end - os;
            let m = op.new_end - ns;
            let olds = old.subrange(os, op.old_end as int);
            let news = new.subrange(ns, op.new_end as int);
            let steps = replace_steps(olds, news);
            assert(olds.len() <= usize::MAX && news.len() <= usize::MAX);
            if small_region(n, m) {
                let sim = sim_table(olds, news);
                let ok = ok_table(olds, news);
                assert forall|x: int, y: int| 0 <= x < n && 0 <= y < m implies #[trigger] sim[x][y] <= MAX_PAIR_SCORE by {
                    lemma_pair_score_bound(olds[x].text, news[y].text);
                }
                lemma_trace_aligned(sim, ok, n, m, n as nat, m as nat);
                let okf = |x: int, y: int| ok[x][y];
                assert forall|x: int, y: int| 0 <= x < n && 0 <= y < m && #[trigger] okf(x, y) implies pairable(old[os + x].text, new[ns + y].text) by {
                    assert(olds[x] == old[os + x]);
                    assert(news[y] == new[ns + y]);
                }
                lemma_steps_match(okf, steps, old, new, os, ns, n, m, n, m, rs);
            } else {
                let okf = pair_fn(olds, news);
                lemma_index_steps_aligned(okf, diag_ok(olds, news), n as nat, m as nat);
                assert forall|x: int, y: int| 0 <= x < n && 0 <= y < m && #[trigger] okf(x, y) implies pairable(old[os + x].text, new[ns + y].text) by {
                    assert(olds[x] == old[os + x]);
                    assert(news[y] == new[ns + y]);
                }
                lemma_steps_match(okf, steps, old, new, os, ns, n, m, n, m, rs);
            }
        },
    }
}

proof fn lemma_ops_match(ops: Seq<Op>, all: Seq<Op>, old: Seq<BlockView>, new: Seq<BlockView>, n: int, m: int, rs: Seq<RowView>)
    requires
        ops == all.take(ops.len() as int),
        ops.len() <= all.len(),
        ops_end(ops) == Some((n, m)),
        n <= old.len(),
        m <= new.len(),
        equal_ops_match(all, keys_of(old), keys_of(new)),
        ops_rows(ops, old, new) == Some(rs),
    ensures
        rows_match(rs, old, new, 0, 0),
    decreases ops.len(),
{
    if ops.len() > 0 {
        let rest = ops.drop_last();
        let q = ops.len() - 1;
        let (oi, ni) = ops_end(rest)->Some_0;
        let a = ops_rows(rest, old, new)->Some_0;
        let b = op_rows(ops.last(), old, new)->Some_0;
        assert(rs == a + b);
        assert(rest == all.take(rest.len() as int));
        assert(all[q] == ops.last());
        lemma_ops_match(rest, all, old, new, oi, ni, a);
        lemma_ops_sides(rest, old, new, oi, ni, a);
        lemma_op_match(all, q, old, new, b);
        lemma_match_concat(a, b, old, new, 0, 0);
    }
}

/// The diff matches only paragraphs that belong together: the `r`-th row, showing the old block
/// after the old blocks of the rows before it and likewise the new block, is a same row only
/// when both blocks have the same text up to white space, and a changed row only when their
/// similarity reaches 0.3.
pub proof fn law_rows_match_their_blocks(old: Seq<BlockView>, new: Seq<BlockView>)
    requires
        diff_spec(old, new) is Some,
    ensures
        rows_match(diff_spec(old, new)->Some_0, old, new, 0, 0),
{
    let ops = myers_ops(keys_of(old), keys_of(new));
    let rs = ops_rows(ops, old, new)->Some_0;
    assert(keys_of(old).len() == old.len());
    assert(keys_of(new).len() == new.len());
    assert(ops == ops.take(ops.len() as int));
    lemma_ops_match(ops, ops, old, new, old.len() as int, new.len() as int, rs);
    let mv = moves_spec(rs);
    assert forall|r: int| 0 <= r < mv.len() implies #[trigger] row_matches(mv, r, old, new, 0, 0) by {
        let p1 = rs.take(r);
        let p2 = mv.take(r);
        assert forall|i: int| 0 <= i < p1.len() implies {
            &&& (#[trigger] p2[i]).left == p1[i].left
            &&& p2[i].right == p1[i].right
            &&& (p2[i].kind == RowKind::Changed) == (p1[i].kind == RowKind::Changed)
        } by {
            assert(p1[i] == rs[i]);
            assert(p2[i] == mv[i]);
            if becomes_moved(rs, i) {
                assert(mv[i] == as_moved(rs[i]));
            }
        }
        lemma_pointwise_sides(p1, p2);
        assert(row_matches(rs, r, old, new, 0, 0));
        if becomes_moved(rs, r) {
            assert(mv[r] == as_moved(rs[r]));
        } else {
            assert(mv[r] == rs[r]);
        }
    }
}

/// A matching key holds no white space, and keeps every other character of the text in order:
/// it is the text with its white space removed.
pub proof fn law_normalize_drops_only_white_space(s: Seq<char>)
    ensures
        forall|i: int| 0 <= i < normalize_spec(s).len() ==> !is_ws(#[trigger] normalize_spec(s)[i]),
        normalize_spec(s) == s.filter(|c: char| !is_ws(c)),
    decreases s.len(),
{
    if s.len() > 0 {
        law_normalize_drops_only_white_space(s.drop_last());
        let t = normalize_spec(s.drop_last());
        assert forall|i: int| 0 <= i < normalize_spec(s).len() implies !is_ws(#[trigger] normalize_spec(s)[i]) by {
            if i < t.len() {
                assert(normalize_spec(s)[i] == t[i]);
            }
        }
        reveal(Seq::filter);
        assert(s.drop_last().filter(|c: char| !is_ws(c)) == t);
    } else {
        reveal(Seq::filter);
    }
}

/// Row `r`, if deleted, inserted or moved, carries as its key the exact text of the block it
/// shows (counted from `lo` and `ln`).
pub open spec fn row_keyed(rows: Seq<RowView>, r: int, old: Seq<BlockView>, new: Seq<BlockView>, lo: int, ln: int) -> bool {
    let a = lo + old_pos(rows, r);
    let b = ln + new_pos(rows, r);
    (rows[r].kind == RowKind::Deleted || rows[r].kind == RowKind::Inserted || rows[r].kind == RowKind::Moved) ==> {
        &&& rows[r].key is Some
        &&& rows[r].left is Some ==> rows[r].key->Some_0 == old[a].text
        &&& rows[r].right is Some ==> rows[r].key->Some_0 == new[b].text
    }
}

pub open spec fn rows_keyed(rows: Seq<RowView>, old: Seq<BlockView>, new: Seq<BlockView>, lo: int, ln: int) -> bool {
    forall|r: int| 0 <= r < rows.len() ==> #[trigger] row_keyed(rows, r, old, new, lo, ln)
}

proof fn lemma_keyed_concat(a: Seq<RowView>, b: Seq<RowView>, old: Seq<BlockView>, new: Seq<BlockView>, lo: int, ln: int)
    requires
        rows_keyed(a, old, new, lo, ln),
        rows_keyed(b, old, new, lo + old_side(a).len(), ln + new_side(a).len()),
    ensures
        rows_keyed(a + b, old, new, lo, ln),
{
    let c = a + b;
    assert forall|r: int| 0 <= r < c.len() implies #[trigger] row_keyed(c, r, old, new, lo, ln) by {
        if r < a.len() {
            assert(c.take(r) == a.take(r));
            assert(c[r] == a[r]);
            assert(row_keyed(a, r, old, new, lo, ln));
        } else {
            let r2 = r - a.len();
            assert(c.take(r) == a + b.take(r2));
            lemma_side_append(a, b.take(r2));
            assert(c[r] == b[r2]);
            assert(row_keyed(b, r2, old, new, lo + old_side(a).len(), ln + new_side(a).len()));
        }
    }
}

proof fn lemma_steps_keyed(
    okf: spec_fn(int, int) -> bool,
    steps: Seq<Step>,
    old: Seq<BlockView>,
    new: Seq<BlockView>,
    os: int,
    ns: int,
    n: int,
    m: int,
    i: int,
    j: int,
    rs: Seq<RowView>,
)
    requires
        0 <= os,
        0 <= ns,
        os + n <= old.len(),
        ns + m <= new.len(),
        i <= n,
        j <= m,
        aligned(okf, steps, i, j),
        steps_rows(steps, old.subrange(os, os + n), new.subrange(ns, ns + m)) == Some(rs),
    ensures
        rows_keyed(rs, old, new, os, ns),
    decreases steps.len(),
{
    let olds = old.subrange(os, os + n);
    let news = new.subrange(ns, ns + m);
    if steps.len() > 0 {
        let rest = steps.drop_last();
        let a = steps_rows(rest, olds, news)->Some_0;
        let r = step_row(steps.last(), olds, news)->Some_0;
        assert(rs == a.push(r));
        let (pi, pj) = match steps.last() {
            Step::Pair(x, y) => (i - 1, j - 1),
            Step::Del(x) => (i - 1, j),
            Step::Ins(y) => (i, j - 1),
        };
        lemma_steps_keyed(okf, rest, old, new, os, ns, n, m, pi, pj, a);
        lemma_steps_sides(okf, rest, olds, news, pi, pj, a);
        let last = a.len() as int;
        assert forall|k: int| 0 <= k < rs.len() implies #[trigger] row_keyed(rs, k, old, new, os, ns) by {
            if k < last {
                assert(rs.take(k) == a.take(k));
                assert(rs[k] == a[k]);
                assert(row_keyed(a, k, old, new, os, ns));
            } else {
                assert(rs.take(k) == a);
                assert(rs[k] == r);
                match steps.last() {
                    Step::Del(x) => {
                        assert(olds[i - 1] == old[os + i - 1]);
                    },
                    Step::Ins(y) => {
                        assert(news[j - 1] == new[ns + j - 1]);
                    },
                    Step::Pair(x, y) => {},
                }
            }
        }
    }
}

proof fn lemma_op_keyed(op: Op, old: Seq<BlockView>, new: Seq<BlockView>, rs: Seq<RowView>)
    requires
        op_fits(op, op.old_start as int, op.new_start as int),
        op.old_end <= old.len(),
        op.new_end <= new.len(),
        op_rows(op, old, new) == Some(rs),
    ensures
        rows_keyed(rs, old, new, op.old_start as int, op.new_start as int),
{
    let os = op.old_start as int;
    let ns = op.new_start as int;
    match op.tag {
        OpTag::Equal => {},
        OpTag::Delete => {
            assert forall|r: int| 0 <= r < rs.len() implies #[trigger] row_keyed(rs, r, old, new, os, ns) by {
                let pre = rs.take(r);
                assert forall|k: int| 0 <= k < pre.len() implies {
                    &&& (#[trigger] pre[k]).left is Some == true
                    &&& pre[k].right is Some == false
                    &&& pre[k].kind != RowKind::Changed
                    &&& true ==> pre[k].left->Some_0 == (CellView { loc: old[os + k].loc, html: escape_spec(old[os + k].text) })
                    &&& false ==> pre[k].right->Some_0 == (CellView { loc: new[ns + k].loc, html: escape_spec(new[ns + k].text) })
                } by {
                    assert(pre[k] == rs[k]);
                }
                lemma_run_sides(pre, old, new, os, ns, true, false);
            }
        },
        OpTag::Insert => {
            assert forall|r: int| 0 <= r < rs.len() implies #[trigger] row_keyed(rs, r, old, new, os, ns) by {
                let pre = rs.take(r);
                assert forall|k: int| 0 <= k < pre.len() implies {
                    &&& (#[trigger] pre[k]).left is Some == false
                    &&& pre[k].right is Some == true
                    &&& pre[k].kind != RowKind::Changed
                    &&& false ==> pre[k].left->Some_0 == (CellView { loc: old[os + k].loc, html: escape_spec(old[os + k].text) })
                    &&& true ==> pre[k].right->Some_0 == (CellView { loc: new[ns + k].loc, html: escape_spec(new[ns + k].text) })
                } by {
                    assert(pre[k] == rs[k]);
                }
                lemma_run_sides(pre, old, new, os, ns, false, true);
            }
        },
        OpTag::Replace => {
            let n = op.old_end - os;
            let m = op.new_end - ns;
            let olds = old.subrange(os, op.old_end as int);
            let news = new.subrange(ns, op.new_end as int);
            lemma_replace_steps_aligned(olds, news);
            let okf = choose|okf: spec_fn(int, int) -> bool|
                aligned(okf, replace_steps(olds, news), olds.len() as int, news.len() as int);
            lemma_steps_keyed(okf, replace_steps(olds, news), old, new, os, ns, n, m, n, m, rs);
        },
    }
}

proof fn lemma_ops_keyed(ops: Seq<Op>, old: Seq<BlockView>, new: Seq<BlockView>, n: int, m: int, rs: Seq<RowView>)
    requires
        ops_end(ops) == Some((n, m)),
        n <= old.len(),
        m <= new.len(),
        ops_rows(ops, old, new) == Some(rs),
    ensures
        rows_keyed(rs, old, new, 0, 0),
    decreases ops.len(),
{
    if ops.len() > 0 {
        let rest = ops.drop_last();
        let (oi, ni) = ops_end(rest)->Some_0;
        let a = ops_rows(rest, old, new)->Some_0;
        let b = op_rows(ops.last(), old, new)->Some_0;
        assert(rs == a + b);
        lemma_ops_keyed(rest, old, new, oi, ni, a);
        lemma_ops_sides(rest, old, new, oi, ni, a);
        lemma_op_keyed(ops.last(), old, new, b);
        lemma_keyed_concat(a, b, old, new, 0, 0);
    }
}

/// Deleted, inserted and moved rows carry as their key the exact text of the block they show:
/// so the rows that move detection pairs on a key show blocks with identical text.
pub proof fn law_unmatched_rows_carry_their_text(old: Seq<BlockView>, new: Seq<BlockView>)
    requires
        old.len() <= usize::MAX,
        new.len() <= usize::MAX,
        diff_spec(old, new) is Some,
    ensures
        rows_keyed(diff_spec(old, new)->Some_0, old, new, 0, 0),
{
    let ops = myers_ops(keys_of(old), keys_of(new));
    let rs = ops_rows(ops, old, new)->Some_0;
    assert(keys_of(old).len() == old.len());
    assert(keys_of(new).len() == new.len());
    lemma_ops_keyed(ops, old, new, old.len() as int, new.len() as int, rs);
    let mv = moves_spec(rs);
    assert forall|r: int| 0 <= r < mv.len() implies #[trigger] row_keyed(mv, r, old, new, 0, 0) by {
        let p1 = rs.take(r);
        let p2 = mv.take(r);
        assert forall|i: int| 0 <= i < p1.len() implies {
            &&& (#[trigger] p2[i]).left == p1[i].left
            &&& p2[i].right == p1[i].right
            &&& (p2[i].kind == RowKind::Changed) == (p1[i].kind == RowKind::Changed)
        } by {
            assert(p1[i] == rs[i]);
            assert(p2[i] == mv[i]);
            if becomes_moved(rs, i) {
                assert(mv[i] == as_moved(rs[i]));
            }
        }
        lemma_pointwise_sides(p1, p2);
        assert(row_keyed(rs, r, old, new, 0, 0));
        if becomes_moved(rs, r) {
            assert(mv[r] == as_moved(rs[r]));
        } else {
            assert(mv[r] == rs[r]);
        }
    }
}

// ---------------------------------------------------------------- escaping

proof fn lemma_escape_append(x: Seq<char>, y: Seq<char>)
    ensures
        escape_spec(x + y) == escape_spec(x) + escape_spec(y),
    decreases y.len(),
{
    if y.len() == 0 {
        assert(x + y == x);
        assert(escape_spec(x) + escape_spec(y) == escape_spec(x));
    } else {
        lemma_escape_append(x, y.drop_last());
        assert((x + y).drop_last() == x + y.drop_last());
        assert((x + y).last() == y.last());
    }
}

proof fn lemma_escape_len(s: Seq<char>)
    ensures
        escape_spec(s).len() >= s.len(),
    decreases s.len(),
{
    if s.len() > 0 {
        lemma_escape_len(s.drop_last());
    }
}

proof fn lemma_escape_first(s: Seq<char>)
    requires
        s.len() > 0,
    ensures
        escape_spec(s) == escape_char(s[0]) + escape_spec(s.drop_first()),
{
    lemma_escape_append(seq![s[0]], s.drop_first());
    assert(seq![s[0]] + s.drop_first() == s);
    let one = seq![s[0]];
    assert(one.drop_last() =~= Seq::<char>::empty());
    assert(one.last() == s[0]);
    assert(escape_spec(Seq::<char>::empty()) == Seq::<char>::empty());
    assert(escape_spec(one) == escape_spec(one.drop_last()) + escape_char(one.last()));
    assert(escape_spec(seq![s[0]]) == Seq::<char>::empty() + escape_char(s[0]));
    assert(Seq::<char>::empty() + escape_char(s[0]) == escape_char(s[0]));
}

/// Decoding of the four entities that `escape` writes, read left to right: `&lt;`, `&gt;`,
/// `&quot;` and `&amp;` become `<`, `>`, `"` and `&`; every other character is kept.
pub open spec fn unescape_spec(s: Seq<char>) -> Seq<char>
    decreases s.len(),
{
    if s.len() == 0 {
        Seq::empty()
    } else if s.len() >= 4 && s.take(4) == seq!['&', 'l', 't', ';'] {
        seq!['<'] + unescape_spec(s.skip(4))
    } else if s.len() >= 4 && s.take(4) == seq!['&', 'g', 't', ';'] {
        seq!['>'] + unescape_spec(s.skip(4))
    } else if s.len() >= 6 && s.take(6) == seq!['&', 'q', 'u', 'o', 't', ';'] {
        seq!['"'] + unescape_spec(s.skip(6))
    } else if s.len() >= 5 && s.take(5) == seq!['&', 'a', 'm', 'p', ';'] {
        seq!['&'] + unescape_spec(s.skip(5))
    } else {
        seq![s[0]] + unescape_spec(s.skip(1))
    }
}

proof fn lemma_escape_front(c: char, t: Seq<char>)
    ensures
        escape_spec(seq![c] + t) == escape_char(c) + escape_spec(t),
{
    lemma_escape_append(seq![c], t);
    assert(seq![c].drop_last() =~= Seq::<char>::empty());
    assert(escape_spec(seq![c]) == escape_spec(Seq::<char>::empty()) + escape_char(c));
    assert(Seq::<char>::empty() + escape_char(c) == escape_char(c));
}

/// Decoding an escaped text gives the text back: the escape is undone left to right.
pub proof fn law_unescape_undoes_escape(s: Seq<char>)
    ensures
        unescape_spec(escape_spec(s)) == s,
    decreases s.len(),
{
    if s.len() == 0 {
        assert(escape_spec(s) == Seq::<char>::empty());
    } else {
        let c = s[0];
        let t = s.drop_first();
        assert(s == seq![c] + t);
        lemma_escape_front(c, t);
        law_unescape_undoes_escape(t);
        let ec = escape_char(c);
        let et = escape_spec(t);
        let e = ec + et;
        assert(escape_spec(s) == e);
        assert(e.skip(ec.len() as int) =~= et);
        assert(e.take(ec.len() as int) =~= ec);
        if ec.len() == 1 {
            assert(e[0] == c);
            assert(c != '&');
            if e.len() >= 4 {
                assert(e.take(4)[0] == c);
            }
            if e.len() >= 5 {
                assert(e.take(5)[0] == c);
            }
            if e.len() >= 6 {
                assert(e.take(6)[0] == c);
            }
            assert(e.skip(1) =~= et);
            assert(unescape_spec(e) == seq![c] + unescape_spec(et));
        } else {
            assert(e[1] == ec[1]);
            if e.len() >= 4 {
                assert(e.take(4)[1] == e[1]);
            }
            if e.len() >= 6 {
                assert(e.take(6)[1] == e[1]);
            }
            if e.len() >= 5 {
                assert(e.take(5)[1] == e[1]);
            }
            if c == '<' {
                assert(e.take(4) =~= ec);
            } else if c == '>' {
                assert(e.take(4) =~= ec);
            } else if c == '"' {
                assert(e.take(6) =~= ec);
            } else {
                assert(e.take(5) =~= ec);
            }
        }
    }
}

/// Escaping loses nothing: different texts have different escapes, so the escaped text
/// shown in a cell determines the text.
pub proof fn law_escape_is_injective(a: Seq<char>, b: Seq<char>)
    requires
        escape_spec(a) == escape_spec(b),
    ensures
        a == b,
    decreases a.len() + b.len(),
{
    if a.len() == 0 || b.len() == 0 {
        lemma_escape_len(a);
        lemma_escape_len(b);
        if a.len() > 0 {
            lemma_escape_first(a);
        }
        if b.len() > 0 {
            lemma_escape_first(b);
        }
        assert(a =~= b);
    } else {
        lemma_escape_first(a);
        lemma_escape_first(b);
        let ea = escape_char(a[0]);
        let eb = escape_char(b[0]);
        let e = escape_spec(a);
        assert(e[0] == ea[0]);
        assert(e[0] == eb[0]);
        if ea.len() > 1 {
            assert(e[1] == ea[1]);
        }
        if eb.len() > 1 {
            assert(e[1] == eb[1]);
        }
        assert(a[0] == b[0]);
        let ra = a.drop_first();
        let rb = b.drop_first();
        assert(escape_spec(ra) == e.skip(ea.len() as int));
        assert(escape_spec(rb) == e.skip(ea.len() as int));
        law_escape_is_injective(ra, rb);
        assert(a == seq![a[0]] + ra);
        assert(b == seq![b[0]] + rb);
    }
}

// ---------------------------------------------------------------- character markup

/// The characters of a markup text outside its tags (a tag runs from `<` to the next `>`),
/// and whether the text ends inside a tag.
pub open spec fn untag_fold(s: Seq<char>) -> (Seq<char>, bool)
    decreases s.len(),
{
    if s.len() == 0 {
        (Seq::empty(), false)
    } else {
        let (kept, in_tag) = untag_fold(s.drop_last());
        let c = s.last();
        if in_tag {
            (kept, c != '>')
        } else if c == '<' {
            (kept, true)
        } else {
            (kept.push(c), false)
        }
    }
}

/// The characters of a markup text outside its tags.
pub open spec fn untag(s: Seq<char>) -> Seq<char> {
    untag_fold(s).0
}

proof fn lemma_untag_append(x: Seq<char>, y: Seq<char>)
    requires
        !untag_fold(x).1,
    ensures
        untag_fold(x + y) == (untag(x) + untag_fold(y).0, untag_fold(y).1),
    decreases y.len(),
{
    if y.len() == 0 {
        assert(x + y == x);
        assert(untag(x) + Seq::<char>::empty() == untag(x));
    } else {
        lemma_untag_append(x, y.drop_last());
        assert((x + y).drop_last() == x + y.drop_last());
        assert((x + y).last() == y.last());
        let (k, t) = untag_fold(y.drop_last());
        if !t && y.last() != '<' {
            assert(untag(x) + k.push(y.last()) == (untag(x) + k).push(y.last()));
        }
    }
}

proof fn lemma_untag_plain(p: Seq<char>)
    requires
        forall|i: int| 0 <= i < p.len() ==> #[trigger] p[i] != '<',
    ensures
        untag_fold(p) == (p, false),
    decreases p.len(),
{
    if p.len() > 0 {
        lemma_untag_plain(p.drop_last());
        assert(p[p.len() - 1] != '<');
        assert(p.drop_last().push(p.last()) == p);
    }
}

proof fn lemma_untag_tags()
    ensures
        untag_fold("<del>"@) == (Seq::<char>::empty(), false),
        untag_fold("</del>"@) == (Seq::<char>::empty(), false),
        untag_fold("<ins>"@) == (Seq::<char>::empty(), false),
        untag_fold("</ins>"@) == (Seq::<char>::empty(), false),
{
    reveal_strlit("<del>");
    reveal_strlit("</del>");
    reveal_strlit("<ins>");
    reveal_strlit("</ins>");
    reveal_with_fuel(untag_fold, 8);
    assert("<del>"@.drop_last().drop_last().drop_last().drop_last().drop_last() =~= Seq::<char>::empty());
    assert("<ins>"@.drop_last().drop_last().drop_last().drop_last().drop_last() =~= Seq::<char>::empty());
    assert("</del>"@.drop_last().drop_last().drop_last().drop_last().drop_last().drop_last() =~= Seq::<char>::empty());
    assert("</ins>"@.drop_last().drop_last().drop_last().drop_last().drop_last().drop_last() =~= Seq::<char>::empty());
}

proof fn lemma_escape_char_plain(c: char)
    ensures
        forall|i: int| 0 <= i < escape_char(c).len() ==> #[trigger] escape_char(c)[i] != '<',
{
    law_escape_has_no_markup(seq![c]);
    assert(seq![c].drop_last() =~= Seq::<char>::empty());
    assert(escape_spec(seq![c]) == escape_spec(Seq::<char>::empty()) + escape_char(c));
    assert(escape_spec(Seq::<char>::empty()) + escape_char(c) == escape_char(c));
}

/// The old text that a list of character changes carries: its equal and deleted characters.
pub open spec fn old_text(c: Seq<(OpTag, char)>) -> Seq<char>
    decreases c.len(),
{
    if c.len() == 0 {
        Seq::empty()
    } else {
        let rest = old_text(c.drop_last());
        if c.last().0 == OpTag::Equal || c.last().0 == OpTag::Delete {
            rest.push(c.last().1)
        } else {
            rest
        }
    }
}

/// The new text that a list of character changes carries: its equal and inserted characters.
pub open spec fn new_text(c: Seq<(OpTag, char)>) -> Seq<char>
    decreases c.len(),
{
    if c.len() == 0 {
        Seq::empty()
    } else {
        let rest = new_text(c.drop_last());
        if c.last().0 == OpTag::Equal || c.last().0 == OpTag::Insert {
            rest.push(c.last().1)
        } else {
            rest
        }
    }
}

pub open spec fn plain(p: Seq<char>) -> bool {
    forall|i: int| 0 <= i < p.len() ==> #[trigger] p[i] != '<'
}

proof fn lemma_plain_concat(p: Seq<char>, q: Seq<char>)
    requires
        plain(p),
        plain(q),
    ensures
        plain(p + q),
{
    assert forall|i: int| 0 <= i < (p + q).len() implies #[trigger] (p + q)[i] != '<' by {
        if i < p.len() {
            assert((p + q)[i] == p[i]);
        } else {
            assert((p + q)[i] == q[i - p.len()]);
        }
    }
}

/// One side being built: outside any tag, its text so far plus the pending run is the escaped
/// side text, and the pending run is plain text.
pub open spec fn side_ok(built: Seq<char>, pending: Seq<char>, text: Seq<char>) -> bool {
    &&& !untag_fold(built).1
    &&& untag(built) + pending == escape_spec(text)
    &&& plain(pending)
}

/// Closing a pending run in tags keeps the side's text.
proof fn lemma_wrap(built: Seq<char>, pending: Seq<char>, open: Seq<char>, close: Seq<char>)
    requires
        !untag_fold(built).1,
        plain(pending),
        untag_fold(open) == (Seq::<char>::empty(), false),
        untag_fold(close) == (Seq::<char>::empty(), false),
    ensures
        !untag_fold(built + open + pending + close).1,
        untag(built + open + pending + close) == untag(built) + pending,
{
    lemma_untag_append(built, open);
    assert(untag(built) + Seq::<char>::empty() == untag(built));
    lemma_untag_plain(pending);
    lemma_untag_append(built + open, pending);
    lemma_untag_append(built + open + pending, close);
    assert(untag(built) + pending + Seq::<char>::empty() == untag(built) + pending);
}

proof fn lemma_fold_untag(c: Seq<(OpTag, char)>)
    ensures
        side_ok(html_fold(c).l, html_fold(c).pd, old_text(c)),
        side_ok(html_fold(c).r, html_fold(c).pi, new_text(c)),
    decreases c.len(),
{
    if c.len() == 0 {
        assert(escape_spec(Seq::<char>::empty()) == Seq::<char>::empty());
        assert(Seq::<char>::empty() + Seq::<char>::empty() == Seq::<char>::empty());
    } else {
        let rest = c.drop_last();
        lemma_fold_untag(rest);
        let st = html_fold(rest);
        let x = c.last();
        let e = escape_char(x.1);
        lemma_escape_char_plain(x.1);
        lemma_untag_tags();
        let ot = old_text(rest);
        let nt = new_text(rest);
        assert(escape_spec(ot.push(x.1)) == escape_spec(ot) + e) by {
            assert(ot.push(x.1).drop_last() == ot);
        }
        assert(escape_spec(nt.push(x.1)) == escape_spec(nt) + e) by {
            assert(nt.push(x.1).drop_last() == nt);
        }
        match x.0 {
            OpTag::Equal => {
                let f = flush_spec(st);
                if st.pd.len() > 0 {
                    lemma_wrap(st.l, st.pd, "<del>"@, "</del>"@);
                } else {
                    assert(untag(st.l) + st.pd == untag(st.l));
                }
                if st.pi.len() > 0 {
                    lemma_wrap(st.r, st.pi, "<ins>"@, "</ins>"@);
                } else {
                    assert(untag(st.r) + st.pi == untag(st.r));
                }
                assert(!untag_fold(f.l).1 && untag(f.l) == escape_spec(ot));
                assert(!untag_fold(f.r).1 && untag(f.r) == escape_spec(nt));
                lemma_untag_plain(e);
                lemma_untag_append(f.l, e);
                lemma_untag_append(f.r, e);
                assert(untag(f.l + e) + Seq::<char>::empty() == untag(f.l + e));
                assert(untag(f.r + e) + Seq::<char>::empty() == untag(f.r + e));
            },
            OpTag::Delete => {
                lemma_plain_concat(st.pd, e);
                assert(untag(st.l) + (st.pd + e) == untag(st.l) + st.pd + e);
            },
            OpTag::Insert => {
                lemma_plain_concat(st.pi, e);
                assert(untag(st.r) + (st.pi + e) == untag(st.r) + st.pi + e);
            },
            OpTag::Replace => {},
        }
    }
}

/// The markup of a list of character changes, with its tags removed, reads as the escaped old
/// text on the old side and the escaped new text on the new side.
proof fn lemma_changes_markup(c: Seq<(OpTag, char)>)
    ensures
        untag(html_of_changes(c).0) == escape_spec(old_text(c)),
        untag(html_of_changes(c).1) == escape_spec(new_text(c)),
{
    lemma_fold_untag(c);
    lemma_untag_tags();
    let st = html_fold(c);
    if st.pd.len() > 0 {
        lemma_wrap(st.l, st.pd, "<del>"@, "</del>"@);
    } else {
        assert(untag(st.l) + st.pd == untag(st.l));
    }
    if st.pi.len() > 0 {
        lemma_wrap(st.r, st.pi, "<ins>"@, "</ins>"@);
    } else {
        assert(untag(st.r) + st.pi == untag(st.r));
    }
}

proof fn lemma_text_append(x: Seq<(OpTag, char)>, y: Seq<(OpTag, char)>)
    ensures
        old_text(x + y) == old_text(x) + old_text(y),
        new_text(x + y) == new_text(x) + new_text(y),
    decreases y.len(),
{
    if y.len() == 0 {
        assert(x + y == x);
        assert(old_text(x) + old_text(y) == old_text(x));
        assert(new_text(x) + new_text(y) == new_text(x));
    } else {
        lemma_text_append(x, y.drop_last());
        assert((x + y).drop_last() == x + y.drop_last());
        assert((x + y).last() == y.last());
        assert((old_text(x) + old_text(y.drop_last())).push(y.last().1) == old_text(x) + old_text(y.drop_last()).push(y.last().1));
        assert((new_text(x) + new_text(y.drop_last())).push(y.last().1) == new_text(x) + new_text(y.drop_last()).push(y.last().1));
    }
}

proof fn lemma_run_text(tag: OpTag, src: Seq<char>, start: int, len: int)
    requires
        0 <= start,
        0 <= len,
        start + len <= src.len(),
    ensures
        old_text(run(tag, src, start, len)) == if tag == OpTag::Equal || tag == OpTag::Delete {
            src.subrange(start, start + len)
        } else {
            Seq::<char>::empty()
        },
        new_text(run(tag, src, start, len)) == if tag == OpTag::Equal || tag == OpTag::Insert {
            src.subrange(start, start + len)
        } else {
            Seq::<char>::empty()
        },
    decreases len,
{
    if len > 0 {
        lemma_run_text(tag, src, start, len - 1);
        assert(run(tag, src, start, len).drop_last() == run(tag, src, start, len - 1));
        assert(src.subrange(start, start + len) == src.subrange(start, start + len - 1).push(src[start + len - 1]));
    } else {
        assert(run(tag, src, start, len) =~= Seq::<(OpTag, char)>::empty());
        assert(src.subrange(start, start) =~= Seq::<char>::empty());
    }
}

/// The character changes of covering operations that relate only equal characters carry
/// exactly the old text and the new text.
proof fn lemma_changes_text(ops: Seq<Op>, all: Seq<Op>, a: Seq<char>, b: Seq<char>, n: int, m: int)
    requires
        ops == all.take(ops.len() as int),
        ops.len() <= all.len(),
        ops_end(ops) == Some((n, m)),
        n <= a.len(),
        m <= b.len(),
        equal_chars_match(all, a, b),
    ensures
        old_text(changes_of(ops, a, b)) == a.take(n),
        new_text(changes_of(ops, a, b)) == b.take(m),
    decreases ops.len(),
{
    if ops.len() == 0 {
        assert(a.take(0) =~= Seq::<char>::empty());
        assert(b.take(0) =~= Seq::<char>::empty());
    } else {
        let rest = ops.drop_last();
        let op = ops.last();
        let q = ops.len() - 1;
        let (oi, ni) = ops_end(rest)->Some_0;
        assert(rest == all.take(rest.len() as int));
        assert(all[q] == op);
        lemma_changes_text(rest, all, a, b, oi, ni);
        let os = op.old_start as int;
        let ns = op.new_start as int;
        let ol = op.old_end - op.old_start;
        let nl = op.new_end - op.new_start;
        lemma_text_append(changes_of(rest, a, b), op_changes(op, a, b));
        let ot = old_text(op_changes(op, a, b));
        let nt = new_text(op_changes(op, a, b));
        match op.tag {
            OpTag::Equal => {
                lemma_run_text(OpTag::Equal, a, os, ol);
                assert(a.subrange(os, os + ol) =~= b.subrange(ns, ns + nl)) by {
                    assert forall|k: int| 0 <= k < ol implies #[trigger] a.subrange(os, os + ol)[k] == b.subrange(ns, ns + nl)[k] by {
                        assert(a[os + k] == b[(os + k) - all[q].old_start + all[q].new_start]);
                    }
                }
            },
            OpTag::Delete => {
                lemma_run_text(OpTag::Delete, a, os, ol);
                assert(b.subrange(ns, ns + nl) =~= Seq::<char>::empty());
            },
            OpTag::Insert => {
                lemma_run_text(OpTag::Insert, b, ns, nl);
                assert(a.subrange(os, os + ol) =~= Seq::<char>::empty());
            },
            OpTag::Replace => {
                lemma_run_text(OpTag::Delete, a, os, ol);
                lemma_run_text(OpTag::Insert, b, ns, nl);
                lemma_text_append(run(OpTag::Delete, a, os, ol), run(OpTag::Insert, b, ns, nl));
                assert(a.subrange(os, os + ol) + Seq::<char>::empty() == a.subrange(os, os + ol));
                assert(Seq::<char>::empty() + b.subrange(ns, ns + nl) == b.subrange(ns, ns + nl));
            },
        }
        assert(ot == a.subrange(os, n));
        assert(nt == b.subrange(ns, m));
        assert(a.take(oi) + a.subrange(oi, n) =~= a.take(n));
        assert(b.take(ni) + b.subrange(ni, m) =~= b.take(m));
    }
}

/// The markup of a changed paragraph keeps both texts whole: with its tags removed, the old
/// side reads as the escaped old text and the new side as the escaped new text, so `<del>`
/// and `<ins>` only mark parts of the texts.
pub proof fn law_markup_keeps_texts(a: Seq<char>, b: Seq<char>)
    requires
        char_html(a, b) is Some,
    ensures
        untag(char_html(a, b)->Some_0.0) == escape_spec(a),
        untag(char_html(a, b)->Some_0.1) == escape_spec(b),
{
    lemma_untag_tags();
    if utf8_len(a) + utf8_len(b) > 30000 {
        law_escape_has_no_markup(a);
        law_escape_has_no_markup(b);
        let ea = escape_spec(a);
        let eb = escape_spec(b);
        assert(plain(ea));
        assert(plain(eb));
        lemma_wrap(Seq::<char>::empty(), ea, "<del>"@, "</del>"@);
        lemma_wrap(Seq::<char>::empty(), eb, "<ins>"@, "</ins>"@);
        assert(Seq::<char>::empty() + "<del>"@ + ea + "</del>"@ == "<del>"@ + ea + "</del>"@);
        assert(Seq::<char>::empty() + "<ins>"@ + eb + "</ins>"@ == "<ins>"@ + eb + "</ins>"@);
        assert(untag(Seq::<char>::empty()) + ea == ea);
        assert(untag(Seq::<char>::empty()) + eb == eb);
    } else {
        let ops = char_diff_ops(a, b);
        assert(ops == ops.take(ops.len() as int));
        lemma_changes_text(ops, ops, a, b, a.len() as int, b.len() as int);
        lemma_changes_markup(changes_of(ops, a, b));
        assert(a.take(a.len() as int) == a);
        assert(b.take(b.len() as int) == b);
    }
}

/// Blocks whose texts are equal up to white space, position by position, give one same row
/// per position, showing both blocks, when the block diff of their equal key lists is one
/// equal operation (which `diff_key_lists` states of `similar`).
pub proof fn law_equal_keys_give_same_rows(old: Seq<BlockView>, new: Seq<BlockView>)
    requires
        old.len() <= usize::MAX,
        keys_of(old) == keys_of(new),
        myers_ops(keys_of(old), keys_of(new)) == all_equal_ops(old.len()),
    ensures
        diff_spec(old, new) == Some(same_rows(old, new)),
{
    let ok = keys_of(old);
    let nk = keys_of(new);
    assert(ok.len() == old.len());
    assert(nk.len() == new.len());
    let ops = all_equal_ops(old.len());
    let n = old.len();
    if n == 0 {
        assert(ops_rows(ops, old, new) == Some(Seq::<RowView>::empty()));
        assert(moves_spec(Seq::<RowView>::empty()) =~= Seq::<RowView>::empty());
        assert(same_rows(old, new) =~= Seq::<RowView>::empty());
    } else {
        let op = ops[0];
        assert(ops.drop_last() =~= Seq::<Op>::empty());
        assert(ops_end(ops.drop_last()) == Some((0int, 0int)));
        assert(ops_rows(ops.drop_last(), old, new) == Some(Seq::<RowView>::empty()));
        assert(ops.last() == op);
        assert(op_fits(op, 0, 0));
        assert(ops_end(ops) == Some((n as int, n as int)));
        assert(segment_equal(ok, nk, op));
        assert(equal_ops_match(ops, ok, nk));
        let rs = Seq::new(n, |k: int| same_row_v(old[0 + k], new[0 + k]));
        assert(op_rows(op, old, new) == Some(rs));
        assert(ops_rows(ops, old, new) == Some(Seq::<RowView>::empty() + rs));
        assert(Seq::<RowView>::empty() + rs == rs);
        assert(moves_spec(rs) =~= rs) by {
            assert forall|i: int| 0 <= i < rs.len() implies !becomes_moved(rs, i) by {}
        }
        assert(rs =~= same_rows(old, new));
    }
}

/// Reading a markup text: the characters kept so far (outside tags and outside marked spans),
/// whether inside a tag, just after its `<`, whether the tag is a closing one, and whether
/// inside a span that an opening tag started.
#[verifier::ext_equal]
pub struct SpanState {
    pub kept: Seq<char>,
    pub in_tag: bool,
    pub at_start: bool,
    pub closing: bool,
    pub in_span: bool,
}

pub open spec fn span_step(st: SpanState, c: char) -> SpanState {
    if st.in_tag {
        if st.at_start {
            if c == '>' {
                SpanState { in_tag: false, at_start: false, closing: false, in_span: true, ..st }
            } else {
                SpanState { at_start: false, closing: c == '/', ..st }
            }
        } else if c == '>' {
            SpanState { in_tag: false, in_span: !st.closing, ..st }
        } else {
            st
        }
    } else if c == '<' {
        SpanState { in_tag: true, at_start: true, closing: false, ..st }
    } else if st.in_span {
        st
    } else {
        SpanState { kept: st.kept.push(c), ..st }
    }
}

pub open spec fn span_from(st: SpanState, s: Seq<char>) -> SpanState
    decreases s.len(),
{
    if s.len() == 0 {
        st
    } else {
        span_step(span_from(st, s.drop_last()), s.last())
    }
}

pub open spec fn span_start() -> SpanState {
    SpanState { kept: Seq::empty(), in_tag: false, at_start: false, closing: false, in_span: false }
}

/// The characters of a markup text outside its tags and outside the spans that its tags mark
/// (`<del>…</del>`, `<ins>…</ins>`): the text both sides of a changed row share.
pub open spec fn unmarked(s: Seq<char>) -> Seq<char> {
    span_from(span_start(), s).kept
}

/// Outside any tag and span, with `kept` read so far.
pub open spec fn span_outside(st: SpanState, kept: Seq<char>) -> bool {
    !st.in_tag && !st.in_span && st.kept == kept
}

proof fn lemma_span_append(st: SpanState, x: Seq<char>, y: Seq<char>)
    ensures
        span_from(st, x + y) == span_from(span_from(st, x), y),
    decreases y.len(),
{
    if y.len() == 0 {
        assert(x + y == x);
    } else {
        lemma_span_append(st, x, y.drop_last());
        assert((x + y).drop_last() == x + y.drop_last());
        assert((x + y).last() == y.last());
    }
}

proof fn lemma_span_plain_outside(st: SpanState, p: Seq<char>)
    requires
        !st.in_tag,
        !st.in_span,
        plain(p),
    ensures
        span_outside(span_from(st, p), st.kept + p),
    decreases p.len(),
{
    if p.len() == 0 {
        assert(st.kept + p == st.kept);
    } else {
        lemma_span_plain_outside(st, p.drop_last());
        assert(p[p.len() - 1] != '<');
        assert((st.kept + p.drop_last()).push(p.last()) == st.kept + p);
    }
}

proof fn lemma_span_plain_inside(st: SpanState, p: Seq<char>)
    requires
        !st.in_tag,
        st.in_span,
        plain(p),
    ensures
        span_from(st, p) == st,
    decreases p.len(),
{
    if p.len() > 0 {
        lemma_span_plain_inside(st, p.drop_last());
        assert(p[p.len() - 1] != '<');
    }
}

proof fn lemma_span_tags(st: SpanState)
    requires
        !st.in_tag,
    ensures
        !span_from(st, "<del>"@).in_tag && span_from(st, "<del>"@).in_span && span_from(st, "<del>"@).kept == st.kept,
        !span_from(st, "<ins>"@).in_tag && span_from(st, "<ins>"@).in_span && span_from(st, "<ins>"@).kept == st.kept,
        !span_from(st, "</del>"@).in_tag && !span_from(st, "</del>"@).in_span && span_from(st, "</del>"@).kept == st.kept,
        !span_from(st, "</ins>"@).in_tag && !span_from(st, "</ins>"@).in_span && span_from(st, "</ins>"@).kept == st.kept,
{
    reveal_strlit("<del>");
    reveal_strlit("</del>");
    reveal_strlit("<ins>");
    reveal_strlit("</ins>");
    reveal_with_fuel(span_from, 8);
    assert("<del>"@.drop_last().drop_last().drop_last().drop_last().drop_last() =~= Seq::<char>::empty());
    assert("<ins>"@.drop_last().drop_last().drop_last().drop_last().drop_last() =~= Seq::<char>::empty());
    assert("</del>"@.drop_last().drop_last().drop_last().drop_last().drop_last().drop_last() =~= Seq::<char>::empty());
    assert("</ins>"@.drop_last().drop_last().drop_last().drop_last().drop_last().drop_last() =~= Seq::<char>::empty());
}

/// Wrapping a plain pending run in a span keeps what the reader keeps.
proof fn lemma_span_wrap(st: SpanState, pending: Seq<char>, open: Seq<char>, close: Seq<char>, kept: Seq<char>)
    requires
        span_outside(st, kept),
        plain(pending),
        (open == "<del>"@ && close == "</del>"@) || (open == "<ins>"@ && close == "</ins>"@),
    ensures
        span_outside(span_from(st, open + pending + close), kept),
{
    lemma_span_tags(st);
    let s1 = span_from(st, open);
    lemma_span_append(st, open, pending);
    lemma_span_plain_inside(s1, pending);
    lemma_span_append(st, open + pending, close);
    lemma_span_tags(s1);
}

/// The equal characters of a list of changes, escaped: the text both sides share.
pub open spec fn common_text(c: Seq<(OpTag, char)>) -> Seq<char>
    decreases c.len(),
{
    if c.len() == 0 {
        Seq::empty()
    } else if c.last().0 == OpTag::Equal {
        common_text(c.drop_last()) + escape_char(c.last().1)
    } else {
        common_text(c.drop_last())
    }
}

proof fn lemma_fold_spans(c: Seq<(OpTag, char)>)
    ensures
        span_outside(span_from(span_start(), html_fold(c).l), common_text(c)),
        span_outside(span_from(span_start(), html_fold(c).r), common_text(c)),
        plain(html_fold(c).pd),
        plain(html_fold(c).pi),
    decreases c.len(),
{
    if c.len() == 0 {
        assert(html_fold(c).l == Seq::<char>::empty());
    } else {
        let rest = c.drop_last();
        lemma_fold_spans(rest);
        let st = html_fold(rest);
        let x = c.last();
        let e = escape_char(x.1);
        lemma_escape_char_plain(x.1);
        let k = common_text(rest);
        match x.0 {
            OpTag::Equal => {
                let f = flush_spec(st);
                let sl = span_from(span_start(), st.l);
                let sr = span_from(span_start(), st.r);
                if st.pd.len() > 0 {
                    lemma_span_wrap(sl, st.pd, "<del>"@, "</del>"@, k);
                    lemma_span_append(span_start(), st.l, "<del>"@ + st.pd + "</del>"@);
                    assert(st.l + "<del>"@ + st.pd + "</del>"@ == st.l + ("<del>"@ + st.pd + "</del>"@));
                }
                if st.pi.len() > 0 {
                    lemma_span_wrap(sr, st.pi, "<ins>"@, "</ins>"@, k);
                    lemma_span_append(span_start(), st.r, "<ins>"@ + st.pi + "</ins>"@);
                    assert(st.r + "<ins>"@ + st.pi + "</ins>"@ == st.r + ("<ins>"@ + st.pi + "</ins>"@));
                }
                let fl = span_from(span_start(), f.l);
                let fr = span_from(span_start(), f.r);
                assert(span_outside(fl, k));
                assert(span_outside(fr, k));
                lemma_span_plain_outside(fl, e);
                lemma_span_plain_outside(fr, e);
                lemma_span_append(span_start(), f.l, e);
                lemma_span_append(span_start(), f.r, e);
                assert(plain(Seq::<char>::empty()));
            },
            OpTag::Delete => {
                lemma_plain_concat(st.pd, e);
            },
            OpTag::Insert => {
                lemma_plain_concat(st.pi, e);
            },
            OpTag::Replace => {},
        }
    }
}

/// The two sides of a changed row's markup share their unmarked text: what lies outside
/// `<del>…</del>` on the old side is exactly what lies outside `<ins>…</ins>` on the new side.
pub proof fn law_markup_sides_share_unmarked_text(a: Seq<char>, b: Seq<char>)
    requires
        char_html(a, b) is Some,
    ensures
        unmarked(char_html(a, b)->Some_0.0) == unmarked(char_html(a, b)->Some_0.1),
{
    if utf8_len(a) + utf8_len(b) > 30000 {
        law_escape_has_no_markup(a);
        law_escape_has_no_markup(b);
        lemma_span_wrap(span_start(), escape_spec(a), "<del>"@, "</del>"@, Seq::<char>::empty());
        lemma_span_wrap(span_start(), escape_spec(b), "<ins>"@, "</ins>"@, Seq::<char>::empty());
    } else {
        let c = changes_of(char_diff_ops(a, b), a, b);
        lemma_fold_spans(c);
        let st = html_fold(c);
        let k = common_text(c);
        let sl = span_from(span_start(), st.l);
        let sr = span_from(span_start(), st.r);
        if st.pd.len() > 0 {
            lemma_span_wrap(sl, st.pd, "<del>"@, "</del>"@, k);
            lemma_span_append(span_start(), st.l, "<del>"@ + st.pd + "</del>"@);
            assert(st.l + "<del>"@ + st.pd + "</del>"@ == st.l + ("<del>"@ + st.pd + "</del>"@));
        }
        if st.pi.len() > 0 {
            lemma_span_wrap(sr, st.pi, "<ins>"@, "</ins>"@, k);
            lemma_span_append(span_start(), st.r, "<ins>"@ + st.pi + "</ins>"@);
            assert(st.r + "<ins>"@ + st.pi + "</ins>"@ == st.r + ("<ins>"@ + st.pi + "</ins>"@));
        }
    }
}


/// Every `<` of a markup text starts one of the two given tags.
pub open spec fn only_tags(s: Seq<char>, open: Seq<char>, close: Seq<char>) -> bool {
    forall|i: int|
        0 <= i < s.len() && #[trigger] s[i] == '<' ==> (i + open.len() <= s.len() && s.subrange(i, i + open.len())
            == open) || (i + close.len() <= s.len() && s.subrange(i, i + close.len()) == close)
}

proof fn lemma_only_tags_concat(x: Seq<char>, y: Seq<char>, open: Seq<char>, close: Seq<char>)
    requires
        only_tags(x, open, close),
        only_tags(y, open, close),
    ensures
        only_tags(x + y, open, close),
{
    let s = x + y;
    assert forall|i: int| 0 <= i < s.len() && #[trigger] s[i] == '<' implies (i + open.len() <= s.len()
        && s.subrange(i, i + open.len()) == open) || (i + close.len() <= s.len() && s.subrange(i, i + close.len())
        == close) by {
        if i < x.len() {
            assert(x[i] == '<');
            if i + open.len() <= x.len() && x.subrange(i, i + open.len()) == open {
                assert(s.subrange(i, i + open.len()) =~= x.subrange(i, i + open.len()));
            } else {
                assert(s.subrange(i, i + close.len()) =~= x.subrange(i, i + close.len()));
            }
        } else {
            let j = i - x.len();
            assert(y[j] == '<');
            if j + open.len() <= y.len() && y.subrange(j, j + open.len()) == open {
                assert(s.subrange(i, i + open.len()) =~= y.subrange(j, j + open.len()));
            } else {
                assert(s.subrange(i, i + close.len()) =~= y.subrange(j, j + close.len()));
            }
        }
    }
}

proof fn lemma_tag_pairs_only_tags()
    ensures
        only_tags("<del>"@, "<del>"@, "</del>"@),
        only_tags("</del>"@, "<del>"@, "</del>"@),
        only_tags("<ins>"@, "<ins>"@, "</ins>"@),
        only_tags("</ins>"@, "<ins>"@, "</ins>"@),
{
    reveal_strlit("<del>");
    reveal_strlit("</del>");
    reveal_strlit("<ins>");
    reveal_strlit("</ins>");
    assert("<del>"@.subrange(0, 5) =~= "<del>"@);
    assert("</del>"@.subrange(0, 6) =~= "</del>"@);
    assert("<ins>"@.subrange(0, 5) =~= "<ins>"@);
    assert("</ins>"@.subrange(0, 6) =~= "</ins>"@);
}

/// A plain run wrapped in a tag pair, appended to a text of those tags only, keeps it so.
proof fn lemma_only_tags_wrap(x: Seq<char>, p: Seq<char>, open: Seq<char>, close: Seq<char>)
    requires
        only_tags(x, open, close),
        only_tags(open, open, close),
        only_tags(close, open, close),
        plain(p),
    ensures
        only_tags(x + open + p + close, open, close),
{
    assert(only_tags(p, open, close));
    lemma_only_tags_concat(x, open, open, close);
    lemma_only_tags_concat(x + open, p, open, close);
    lemma_only_tags_concat(x + open + p, close, open, close);
}

proof fn lemma_fold_only_tags(c: Seq<(OpTag, char)>)
    ensures
        only_tags(html_fold(c).l, "<del>"@, "</del>"@),
        only_tags(html_fold(c).r, "<ins>"@, "</ins>"@),
        plain(html_fold(c).pd),
        plain(html_fold(c).pi),
    decreases c.len(),
{
    lemma_tag_pairs_only_tags();
    if c.len() > 0 {
        let rest = c.drop_last();
        lemma_fold_only_tags(rest);
        let st = html_fold(rest);
        let x = c.last();
        let e = escape_char(x.1);
        lemma_escape_char_plain(x.1);
        assert(plain(e));
        match x.0 {
            OpTag::Equal => {
                let f = flush_spec(st);
                if st.pd.len() > 0 {
                    lemma_only_tags_wrap(st.l, st.pd, "<del>"@, "</del>"@);
                }
                if st.pi.len() > 0 {
                    lemma_only_tags_wrap(st.r, st.pi, "<ins>"@, "</ins>"@);
                }
                assert(only_tags(e, "<del>"@, "</del>"@));
                assert(only_tags(e, "<ins>"@, "</ins>"@));
                lemma_only_tags_concat(f.l, e, "<del>"@, "</del>"@);
                lemma_only_tags_concat(f.r, e, "<ins>"@, "</ins>"@);
                assert(plain(Seq::<char>::empty()));
            },
            OpTag::Delete => {
                lemma_plain_concat(st.pd, e);
            },
            OpTag::Insert => {
                lemma_plain_concat(st.pi, e);
            },
            OpTag::Replace => {},
        }
    } else {
        assert(plain(Seq::<char>::empty()));
    }
}

/// Each side of a changed row's markup uses its own tags only: every `<` of the old side starts
/// `<del>` or `</del>`, and every `<` of the new side starts `<ins>` or `</ins>`.
pub proof fn law_markup_sides_use_their_own_tags(a: Seq<char>, b: Seq<char>)
    requires
        char_html(a, b) is Some,
    ensures
        only_tags(char_html(a, b)->Some_0.0, "<del>"@, "</del>"@),
        only_tags(char_html(a, b)->Some_0.1, "<ins>"@, "</ins>"@),
{
    lemma_tag_pairs_only_tags();
    if utf8_len(a) + utf8_len(b) > 30000 {
        law_escape_has_no_markup(a);
        law_escape_has_no_markup(b);
        let e: Seq<char> = Seq::empty();
        assert(only_tags(e, "<del>"@, "</del>"@));
        assert(only_tags(e, "<ins>"@, "</ins>"@));
        assert(plain(escape_spec(a)));
        assert(plain(escape_spec(b)));
        lemma_only_tags_wrap(e, escape_spec(a), "<del>"@, "</del>"@);
        lemma_only_tags_wrap(e, escape_spec(b), "<ins>"@, "</ins>"@);
        assert(e + "<del>"@ == "<del>"@);
        assert(e + "<ins>"@ == "<ins>"@);
    } else {
        let c = changes_of(char_diff_ops(a, b), a, b);
        lemma_fold_only_tags(c);
        let st = html_fold(c);
        if st.pd.len() > 0 {
            lemma_only_tags_wrap(st.l, st.pd, "<del>"@, "</del>"@);
        }
        if st.pi.len() > 0 {
            lemma_only_tags_wrap(st.r, st.pi, "<ins>"@, "</ins>"@);
        }
    }
}

/// The similarity score of two paragraphs is their similarity ratio `2·matched / total`
/// (matched characters of the character diff, total characters of both capped texts) in
/// fixed point, rounded down: `score · total ≤ 2·matched·ONE < (score + 1) · total`, and
/// `ONE` for two empty texts. So the score never falls as more characters match: of two pairs
/// with the same total, the one with more matched characters scores at least as high, and the
/// matching of a replaced region, which maximises the summed scores, favours the most similar
/// pairs.
pub proof fn law_pair_score_is_the_similarity_ratio(a: Seq<char>, b: Seq<char>, c: Seq<char>, d: Seq<char>)
    ensures
        ({
            let t = ratio_total(a, b);
            let m = if ratio_matched(a, b) <= t { ratio_matched(a, b) } else { t };
            let s = pair_score(a, b) as int;
            &&& t == 0 ==> s == crate::diffing::SCORE_ONE
            &&& t > 0 ==> s * t <= 2 * m * crate::diffing::SCORE_ONE < (s + 1) * t
        }),
        ratio_total(a, b) == ratio_total(c, d) && ratio_matched(a, b) <= ratio_matched(c, d) ==> pair_score(a, b)
            <= pair_score(c, d),
{
    let one = crate::diffing::SCORE_ONE as int;
    let t = ratio_total(a, b);
    assert(t >= 0);
    let m = if ratio_matched(a, b) <= t { ratio_matched(a, b) } else { t };
    if t > 0 {
        assert(ratio_matched(a, b) >= 0) by {
            lemma_matched_nonneg(char_diff_ops(cap_text(a), cap_text(b)));
        }
        let x = 2 * m * one;
        assert(0 <= x <= 2 * t * one) by (nonlinear_arith)
            requires 0 <= m <= t, one == 1048576, x == 2 * m * one;
        let q = x / t;
        assert(q * t <= x < (q + 1) * t) by (nonlinear_arith)
            requires t > 0, x >= 0, q == x / t;
        assert(q <= 2 * one) by (nonlinear_arith)
            requires t > 0, 0 <= x <= 2 * t * one, q == x / t;
        assert(pair_score(a, b) as int == q);
    }
    let t2 = ratio_total(c, d);
    if t == t2 && ratio_matched(a, b) <= ratio_matched(c, d) && t > 0 {
        assert(ratio_matched(a, b) >= 0) by {
            lemma_matched_nonneg(char_diff_ops(cap_text(a), cap_text(b)));
        }
        let m2 = if ratio_matched(c, d) <= t { ratio_matched(c, d) } else { t };
        let x1 = 2 * m * one;
        let x2 = 2 * m2 * one;
        assert(0 <= x1 <= x2 <= 2 * t * one) by (nonlinear_arith)
            requires 0 <= m <= m2 <= t, one == 1048576, x1 == 2 * m * one, x2 == 2 * m2 * one;
        assert(x1 / t <= x2 / t) by (nonlinear_arith)
            requires t > 0, 0 <= x1 <= x2;
        assert(x2 / t <= 2 * one) by (nonlinear_arith)
            requires t > 0, 0 <= x2 <= 2 * t * one;
        assert(pair_score(a, b) as int == x1 / t);
        assert(pair_score(c, d) as int == x2 / t);
    }
}

} // verus!
