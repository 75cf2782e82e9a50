use document_diff_report::diffing::{char_diff_html, diff_blocks, escape, mark_moves, normalize, replace_rows, Row, RowKind};
use document_diff_report::extract::Block;

fn block(loc: &str, text: &str) -> Block {
    Block { loc: loc.to_string(), text: text.to_string() }
}

fn kinds(rows: &[Row]) -> Vec<RowKind> {
    rows.iter().map(|r| r.kind).collect()
}

#[test]
fn escape_replaces_markup_characters() {
    assert_eq!(escape("a<b>&\"c'"), "a&lt;b&gt;&amp;&quot;c'");
    assert_eq!(escape(""), "");
}

#[test]
fn normalize_removes_all_white_space() {
    assert_eq!(normalize(" a\tb\u{3000}c\n"), "abc");
}

#[test]
fn unescaping_an_escaped_text_gives_it_back() {
    let text = "a<b>&amp;\"c\" & d";
    let e = escape(text);
    assert_eq!(e, "a&lt;b&gt;&amp;amp;&quot;c&quot; &amp; d");
    let back = e.replace("&lt;", "<").replace("&gt;", ">").replace("&quot;", "\"");
    assert_eq!(back.replace("&amp;", "&"), text);
}

#[test]
fn char_diff_marks_deletions_and_insertions() {
    let (l, r) = char_diff_html("abc", "axc").unwrap();
    assert_eq!(l, "a<del>b</del>c");
    assert_eq!(r, "a<ins>x</ins>c");
}

#[test]
fn char_diff_escapes_text() {
    let (l, r) = char_diff_html("<a>", "<b>").unwrap();
    assert_eq!(l, "&lt;<del>a</del>&gt;");
    assert_eq!(r, "&lt;<ins>b</ins>&gt;");
}

#[test]
fn markup_sides_use_their_own_tags() {
    let (l, r) = char_diff_html("申請は五月まで<必須>", "申請は六月まで<任意>です").unwrap();
    assert!(!l.contains("<ins>") && !l.contains("</ins>"));
    assert!(!r.contains("<del>") && !r.contains("</del>"));
    assert_eq!(l.replace("<del>", "").replace("</del>", ""), escape("申請は五月まで<必須>"));
    assert_eq!(r.replace("<ins>", "").replace("</ins>", ""), escape("申請は六月まで<任意>です"));
}

#[test]
fn char_diff_of_very_long_texts_marks_everything() {
    let a = "あ".repeat(6000);
    let b = "い".repeat(5000);
    let (l, r) = char_diff_html(&a, &b).unwrap();
    assert_eq!(l, format!("<del>{}</del>", a));
    assert_eq!(r, format!("<ins>{}</ins>", b));
}

#[test]
fn identical_documents_give_same_rows() {
    let old = vec![block("p.1", "一"), block("p.1", "二")];
    let new = vec![block("p.2", "一"), block("p.2", "二 ")];
    let rows = diff_blocks(&old, &new).unwrap();
    assert_eq!(kinds(&rows), vec![RowKind::Same, RowKind::Same]);
    assert_eq!(rows[0].left.as_ref().unwrap().loc, "p.1");
    assert_eq!(rows[0].right.as_ref().unwrap().loc, "p.2");
    assert_eq!(rows[1].right.as_ref().unwrap().html, "二 ");
}

#[test]
fn similar_paragraph_becomes_changed_row() {
    let old = vec![block("p.1", "見出し"), block("p.1", "申請期限は五月です。")];
    let new = vec![block("p.1", "見出し"), block("p.1", "申請期限は六月です。")];
    let rows = diff_blocks(&old, &new).unwrap();
    assert_eq!(kinds(&rows), vec![RowKind::Same, RowKind::Changed]);
    assert_eq!(rows[1].left.as_ref().unwrap().html, "申請期限は<del>五</del>月です。");
    assert_eq!(rows[1].right.as_ref().unwrap().html, "申請期限は<ins>六</ins>月です。");
}

#[test]
fn dissimilar_paragraph_becomes_deletion_and_insertion() {
    let old = vec![block("p.1", "共通"), block("p.1", "abcdefghij")];
    let new = vec![block("p.1", "共通"), block("p.1", "0123456789")];
    let rows = diff_blocks(&old, &new).unwrap();
    assert_eq!(kinds(&rows), vec![RowKind::Same, RowKind::Deleted, RowKind::Inserted]);
    assert!(rows[1].right.is_none());
    assert!(rows[2].left.is_none());
}

#[test]
fn moved_paragraph_is_marked_moved() {
    let old = vec![block("p.1", "甲"), block("p.1", "乙"), block("p.1", "丙")];
    let new = vec![block("p.1", "乙"), block("p.1", "丙"), block("p.1", "甲")];
    let rows = diff_blocks(&old, &new).unwrap();
    let moved = rows.iter().filter(|r| r.kind == RowKind::Moved).count();
    assert_eq!(moved, 2);
    assert!(rows.iter().all(|r| r.kind == RowKind::Same || r.kind == RowKind::Moved));
}

#[test]
fn every_block_appears_once_in_order() {
    let old = vec![block("o1", "alpha"), block("o2", "beta"), block("o3", "gamma delta")];
    let new = vec![block("n1", "beta"), block("n2", "gamma delta!"), block("n3", "zeta")];
    let rows = diff_blocks(&old, &new).unwrap();
    let left: Vec<&str> = rows.iter().filter_map(|r| r.left.as_ref()).map(|c| c.loc.as_str()).collect();
    let right: Vec<&str> = rows.iter().filter_map(|r| r.right.as_ref()).map(|c| c.loc.as_str()).collect();
    assert_eq!(left, vec!["o1", "o2", "o3"]);
    assert_eq!(right, vec!["n1", "n2", "n3"]);
}

#[test]
fn replace_region_pairs_most_similar_paragraphs_in_order() {
    let olds = vec![block("a", "りんごを三個買った"), block("b", "全く関係のない文")];
    let news = vec![block("c", "りんごを四個買った")];
    let rows = replace_rows(&olds, &news).unwrap();
    assert_eq!(kinds(&rows), vec![RowKind::Changed, RowKind::Deleted]);
    assert_eq!(rows[0].right.as_ref().unwrap().loc, "c");
}

#[test]
fn mark_moves_pairs_identical_keys() {
    let old = vec![block("o", "同じ 文")];
    let new = vec![block("n", "同じ文")];
    let rows = diff_blocks(&old, &new).unwrap();
    assert_eq!(kinds(&rows), vec![RowKind::Same]);
    let unmatched = diff_blocks(&[block("o", "x y"), block("o", "q")], &[block("n", "q"), block("n", "xy")]).unwrap();
    let again = mark_moves(unmatched.clone());
    assert_eq!(kinds(&again), kinds(&unmatched));
}

#[test]
fn empty_inputs_give_no_rows() {
    assert!(diff_blocks(&[], &[]).unwrap().is_empty());
    let rows = diff_blocks(&[], &[block("n", "新規")]).unwrap();
    assert_eq!(kinds(&rows), vec![RowKind::Inserted]);
}

fn keyed(kind: RowKind, key: &str) -> Row {
    let cell = Some(document_diff_report::diffing::Cell { loc: "l".to_string(), html: key.to_string() });
    match kind {
        RowKind::Deleted => Row { kind, left: cell, right: None, key: Some(key.to_string()) },
        _ => Row { kind, left: None, right: cell, key: Some(key.to_string()) },
    }
}

#[test]
fn moves_pair_as_many_as_both_sides_have() {
    let rows = vec![
        keyed(RowKind::Deleted, "x"),
        keyed(RowKind::Inserted, "x"),
        keyed(RowKind::Deleted, "x"),
        keyed(RowKind::Deleted, "y"),
        keyed(RowKind::Inserted, "x"),
        keyed(RowKind::Deleted, "x"),
    ];
    let marked = mark_moves(rows);
    assert_eq!(
        kinds(&marked),
        vec![RowKind::Moved, RowKind::Moved, RowKind::Moved, RowKind::Deleted, RowKind::Moved, RowKind::Deleted]
    );
}

#[test]
fn many_identical_moves_are_marked() {
    let mut rows = Vec::new();
    for _ in 0..2000 {
        rows.push(keyed(RowKind::Inserted, "same"));
    }
    for _ in 0..2000 {
        rows.push(keyed(RowKind::Deleted, "same"));
    }
    let marked = mark_moves(rows);
    assert!(marked.iter().all(|r| r.kind == RowKind::Moved));
}

#[test]
fn texts_equal_only_up_to_white_space_do_not_move() {
    let old = vec![block("p.1", "A B"), block("p.1", "X"), block("p.1", "Y")];
    let new = vec![block("p.1", "X"), block("p.1", "Y"), block("p.1", "AB")];
    let rows = diff_blocks(&old, &new).unwrap();
    assert_eq!(kinds(&rows), vec![RowKind::Deleted, RowKind::Same, RowKind::Same, RowKind::Inserted]);
}
