//! The single-file HTML report: two columns, one row per diff row, a summary of the counts
//! in the header, and the script that filters and walks through the changes.
use vstd::prelude::*;
use crate::text::{chars_of, string_of, decimal, push_decimal};
use crate::extract::push_chars;
use crate::diffing::{Row, RowKind, Cell, RowView, CellView, opt_cell_view, rows_view, escape_spec, escape_chars};
use crate::template::{
    HEAD_START, TITLE_SEP, STATS_CHANGED, STATS_INSERTED, STATS_DELETED, STATS_MOVED, COUNTER,
    OLD_HEAD, NEW_HEAD, BODY_START, PAGE_END,
};

verus! {

/// The CSS classes of a row of each kind.
pub open spec fn kind_class(k: RowKind) -> Seq<char> {
    match k {
        RowKind::Same => "row same"@,
        RowKind::Changed => "row chg changed"@,
        RowKind::Deleted => "row chg deleted"@,
        RowKind::Inserted => "row chg inserted"@,
        RowKind::Moved => "row moved"@,
    }
}

/// The name of a row kind.
pub open spec fn kind_name(k: RowKind) -> Seq<char> {
    match k {
        RowKind::Same => "same"@,
        RowKind::Changed => "changed"@,
        RowKind::Deleted => "deleted"@,
        RowKind::Inserted => "inserted"@,
        RowKind::Moved => "moved"@,
    }
}

/// Each row's CSS class names its own kind: the class of a row of kind `k` ends with the word
/// naming `k`, after a space, so different kinds get different classes (an inserted row is
/// styled and labelled as inserted, a deleted one as deleted).
pub proof fn law_row_class_names_its_kind(k: RowKind, k2: RowKind)
    ensures
        kind_class(k).len() > kind_name(k).len(),
        kind_class(k).subrange(kind_class(k).len() - kind_name(k).len() - 1, kind_class(k).len() as int) == seq![' ']
            + kind_name(k),
        kind_class(k) == kind_class(k2) ==> k == k2,
{
    reveal_strlit("row same");
    reveal_strlit("row chg changed");
    reveal_strlit("row chg deleted");
    reveal_strlit("row chg inserted");
    reveal_strlit("row moved");
    reveal_strlit("same");
    reveal_strlit("changed");
    reveal_strlit("deleted");
    reveal_strlit("inserted");
    reveal_strlit("moved");
    let c = kind_class(k);
    let w = kind_name(k);
    assert(c.subrange(c.len() - w.len() - 1, c.len() as int) =~= seq![' '] + w);
    if kind_class(k) == kind_class(k2) && k != k2 {
        let c2 = kind_class(k2);
        assert(c.len() == c2.len());
        match k {
            RowKind::Same => assert(c[4] != c2[4]),
            RowKind::Moved => assert(c[4] != c2[4]),
            _ => assert(c[8] != c2[8]),
        }
    }
}

/// `w` occurs in `s`.
pub open spec fn occurs_in(w: Seq<char>, s: Seq<char>) -> bool {
    exists|i: int| 0 <= i && i + w.len() <= s.len() && #[trigger] s.subrange(i, i + w.len()) == w
}

proof fn lemma_not_occurs(w: Seq<char>, s: Seq<char>)
    requires
        w.len() >= 3,
        forall|i: int| 0 <= i && i + w.len() <= s.len() ==> #[trigger] s[i] != w[0] || s[i + 1] != w[1] || s[i + 2] != w[2],
    ensures
        !occurs_in(w, s),
{
    assert forall|i: int| 0 <= i && i + w.len() <= s.len() implies #[trigger] s.subrange(i, i + w.len()) != w by {
        assert(s.subrange(i, i + w.len())[0] == s[i]);
        assert(s.subrange(i, i + w.len())[1] == s[i + 1]);
        assert(s.subrange(i, i + w.len())[2] == s[i + 2]);
    }
}

/// The class of a row names its own kind and no other: the name of kind `k2` occurs in the
/// class of a row of kind `k` exactly when `k2` is `k`.
pub proof fn law_row_class_names_no_other_kind(k: RowKind, k2: RowKind)
    ensures
        occurs_in(kind_name(k2), kind_class(k)) <==> k == k2,
{
    reveal_strlit("row same");
    reveal_strlit("row chg changed");
    reveal_strlit("row chg deleted");
    reveal_strlit("row chg inserted");
    reveal_strlit("row moved");
    reveal_strlit("same");
    reveal_strlit("changed");
    reveal_strlit("deleted");
    reveal_strlit("inserted");
    reveal_strlit("moved");
    let c = kind_class(k);
    let w = kind_name(k2);
    if k == k2 {
        let i = c.len() - w.len();
        assert(c.subrange(i, i + w.len()) =~= w);
    } else {
        assert forall|i: int| 0 <= i && i + w.len() <= c.len() implies #[trigger] c[i] != w[0] || c[i + 1] != w[1] || c[i + 2] != w[2] by {
            if i == 0 {} else if i == 1 {} else if i == 2 {} else if i == 3 {} else if i == 4 {} else if i == 5 {} else if i == 6 {} else if i == 7 {} else if i == 8 {} else if i == 9 {} else if i == 10 {} else if i == 11 {} else if i == 12 {} else if i == 13 {} else if i == 14 {} else if i == 15 {}
        }
        lemma_not_occurs(w, c);
    }
}

/// The markup of one cell: its escaped location label and its html, or an empty cell.
pub open spec fn cell_html_spec(c: Option<CellView>) -> Seq<char> {
    match c {
        Some(cv) => "<div class=\"cell\"><span class=\"pg\">"@ + escape_spec(cv.loc) + "</span>"@ + cv.html
            + "</div>"@,
        None => "<div class=\"cell empty\"></div>"@,
    }
}

/// The markup of one row: a div of the kind's classes around the two cells.
pub open spec fn row_html_spec(r: RowView) -> Seq<char> {
    "<div class=\""@ + kind_class(r.kind) + "\">"@ + cell_html_spec(r.left) + cell_html_spec(r.right)
        + "</div>\n"@
}

/// The markup of all rows, in order.
pub open spec fn body_spec(rows: Seq<RowView>) -> Seq<char>
    decreases rows.len(),
{
    if rows.len() == 0 {
        Seq::empty()
    } else {
        body_spec(rows.drop_last()) + row_html_spec(rows.last())
    }
}

/// Number of rows of a kind.
pub open spec fn kind_count(rows: Seq<RowView>, k: RowKind) -> nat
    decreases rows.len(),
{
    if rows.len() == 0 {
        0
    } else {
        kind_count(rows.drop_last(), k) + if rows.last().kind == k {
            1nat
        } else {
            0nat
        }
    }
}

/// The whole report for the old and new file names and the rows: the counts of changed,
/// inserted and deleted rows, the number of moves (two moved rows each), and the total of
/// changed, inserted and deleted rows, then every row.
pub open spec fn report_spec(old_name: Seq<char>, new_name: Seq<char>, rows: Seq<RowView>) -> Seq<char> {
    let changed = kind_count(rows, RowKind::Changed);
    let inserted = kind_count(rows, RowKind::Inserted);
    let deleted = kind_count(rows, RowKind::Deleted);
    let moved = kind_count(rows, RowKind::Moved) / 2;
    HEAD_START@ + escape_spec(old_name) + TITLE_SEP@ + escape_spec(new_name) + STATS_CHANGED@ + decimal(changed)
        + STATS_INSERTED@ + decimal(inserted) + STATS_DELETED@ + decimal(deleted) + STATS_MOVED@ + decimal(moved)
        + COUNTER@ + decimal(changed + inserted + deleted) + OLD_HEAD@ + escape_spec(old_name) + NEW_HEAD@
        + escape_spec(new_name) + BODY_START@ + body_spec(rows) + PAGE_END@
}

proof fn lemma_counts_bounded(rows: Seq<RowView>)
    ensures
        kind_count(rows, RowKind::Changed) + kind_count(rows, RowKind::Inserted) + kind_count(rows, RowKind::Deleted)
            <= rows.len(),
    decreases rows.len(),
{
    if rows.len() > 0 {
        lemma_counts_bounded(rows.drop_last());
    }
}

fn kind_class_str(k: RowKind) -> (r: &'static str)
    ensures
        r@ == kind_class(k),
{
    match k {
        RowKind::Same => "row same",
        RowKind::Changed => "row chg changed",
        RowKind::Deleted => "row chg deleted",
        RowKind::Inserted => "row chg inserted",
        RowKind::Moved => "row moved",
    }
}

fn push_str(out: &mut Vec<char>, s: &str)
    ensures
        final(out)@ == old(out)@ + s@,
{
    let cs = chars_of(s);
    push_chars(out, cs.as_slice());
}

fn push_escaped_str(out: &mut Vec<char>, s: &str)
    ensures
        final(out)@ == old(out)@ + escape_spec(s@),
{
    let cs = chars_of(s);
    let e = escape_chars(cs.as_slice());
    push_chars(out, e.as_slice());
}

fn push_cell(out: &mut Vec<char>, cell: &Option<Cell>)
    ensures
        final(out)@ == old(out)@ + cell_html_spec(opt_cell_view(*cell)),
{
    match cell {
        Some(c) => {
            push_str(out, "<div class=\"cell\"><span class=\"pg\">");
            push_escaped_str(out, c.loc.as_str());
            push_str(out, "</span>");
            push_str(out, c.html.as_str());
            push_str(out, "</div>");
        },
        None => push_str(out, "<div class=\"cell empty\"></div>"),
    }
}

fn push_row(out: &mut Vec<char>, row: &Row)
    ensures
        final(out)@ == old(out)@ + row_html_spec(row@),
{
    push_str(out, "<div class=\"");
    push_str(out, kind_class_str(row.kind));
    push_str(out, "\">");
    push_cell(out, &row.left);
    push_cell(out, &row.right);
    push_str(out, "</div>\n");
}

/// The markup of one cell (`cell_html_spec`).
pub fn cell_html(cell: &Option<Cell>) -> (r: String)
    ensures
        r@ == cell_html_spec(opt_cell_view(*cell)),
{
    let mut out: Vec<char> = Vec::new();
    push_cell(&mut out, cell);
    string_of(out.as_slice())
}

fn count_kind(rows: &[Row], k: RowKind) -> (c: usize)
    ensures
        c == kind_count(rows_view(rows@), k),
{
    let ghost rv = rows_view(rows@);
    let mut c: usize = 0;
    let mut i: usize = 0;
    while i < rows.len()
        invariant
            i <= rows.len(),
            rv == rows_view(rows@),
            c == kind_count(rv.take(i as int), k),
            c <= i,
        decreases rows.len() - i,
    {
        assert(rv.take(i + 1).drop_last() == rv.take(i as int));
        if rows[i].kind == k {
            c = c + 1;
        }
        i = i + 1;
    }
    assert(rv.take(rows.len() as int) == rv);
    c
}

/// Renders the report (`report_spec`) for the old and new file names and the diff rows.
pub fn render(old_name: &str, new_name: &str, rows: &[Row]) -> (r: String)
    ensures
        r@ == report_spec(old_name@, new_name@, rows_view(rows@)),
{
    let ghost rv = rows_view(rows@);
    let changed = count_kind(rows, RowKind::Changed);
    let deleted = count_kind(rows, RowKind::Deleted);
    let inserted = count_kind(rows, RowKind::Inserted);
    let moved = count_kind(rows, RowKind::Moved) / 2;
    let mut out: Vec<char> = Vec::new();
    push_str(&mut out, HEAD_START);
    push_escaped_str(&mut out, old_name);
    push_str(&mut out, TITLE_SEP);
    push_escaped_str(&mut out, new_name);
    push_str(&mut out, STATS_CHANGED);
    push_decimal(&mut out, changed as u64);
    push_str(&mut out, STATS_INSERTED);
    push_decimal(&mut out, inserted as u64);
    push_str(&mut out, STATS_DELETED);
    push_decimal(&mut out, deleted as u64);
    push_str(&mut out, STATS_MOVED);
    push_decimal(&mut out, moved as u64);
    push_str(&mut out, COUNTER);
    let n = rows.len();
    proof {
        lemma_counts_bounded(rv);
        assert(rv.len() == n);
    }
    push_decimal(&mut out, changed as u64 + inserted as u64 + deleted as u64);
    push_str(&mut out, OLD_HEAD);
    push_escaped_str(&mut out, old_name);
    push_str(&mut out, NEW_HEAD);
    push_escaped_str(&mut out, new_name);
    push_str(&mut out, BODY_START);
    let ghost head = out@;
    let mut i: usize = 0;
    while i < rows.len()
        invariant
            i <= rows.len(),
            rv == rows_view(rows@),
            out@ == head + body_spec(rv.take(i as int)),
        decreases rows.len() - i,
    {
        assert(rv[i as int] == rows@[i as int]@);
        push_row(&mut out, &rows[i]);
        assert(rv.take(i + 1).drop_last() == rv.take(i as int));
        i = i + 1;
    }
    assert(rv.take(rows.len() as int) == rv);
    push_str(&mut out, PAGE_END);
    string_of(out.as_slice())
}

} // verus!
