use document_diff_report::diffing::{diff_blocks, Cell, Row, RowKind};
use document_diff_report::extract::Block;
use document_diff_report::report::{cell_html, render};

fn block(loc: &str, text: &str) -> Block {
    Block { loc: loc.to_string(), text: text.to_string() }
}

#[test]
fn cell_markup_escapes_the_location() {
    let c = Some(Cell { loc: "A<1>".to_string(), html: "<del>x</del>".to_string() });
    assert_eq!(cell_html(&c), "<div class=\"cell\"><span class=\"pg\">A&lt;1&gt;</span><del>x</del></div>");
    assert_eq!(cell_html(&None), "<div class=\"cell empty\"></div>");
}

#[test]
fn report_counts_rows_by_kind() {
    let old = vec![block("p.1", "甲"), block("p.1", "乙"), block("p.1", "削除される段落"), block("p.1", "丙")];
    let new = vec![block("p.1", "乙"), block("p.1", "丙"), block("p.1", "甲"), block("p.1", "追加")];
    let rows = diff_blocks(&old, &new).unwrap();
    let html = render("old<v1>.pdf", "new.pdf", &rows);
    assert!(html.starts_with("<!DOCTYPE html>"));
    assert!(html.contains("<title>文書差分レポート: old&lt;v1&gt;.pdf → new.pdf</title>"));
    assert!(html.contains("移動 1</span>"));
    assert!(html.contains("<div class=\"old\">旧版: old&lt;v1&gt;.pdf</div>"));
    assert!(html.ends_with("</html>\n"));
    let changed = rows.iter().filter(|r| r.kind == RowKind::Changed).count();
    let deleted = rows.iter().filter(|r| r.kind == RowKind::Deleted).count();
    let inserted = rows.iter().filter(|r| r.kind == RowKind::Inserted).count();
    assert!(html.contains(&format!("変更 {}</span>", changed)));
    assert!(html.contains(&format!("削除 {}</span>", deleted)));
    assert!(html.contains(&format!("追加 {}</span>", inserted)));
    assert!(html.contains(&format!("– / {}</span>", changed + deleted + inserted)));
}

#[test]
fn report_lists_rows_in_order() {
    let rows = vec![
        Row {
            kind: RowKind::Same,
            left: Some(Cell { loc: "p.1".to_string(), html: "a".to_string() }),
            right: Some(Cell { loc: "p.1".to_string(), html: "a".to_string() }),
            key: None,
        },
        Row {
            kind: RowKind::Deleted,
            left: Some(Cell { loc: "p.2".to_string(), html: "b".to_string() }),
            right: None,
            key: Some("b".to_string()),
        },
    ];
    let html = render("a", "b", &rows);
    let first = "<div class=\"row same\"><div class=\"cell\"><span class=\"pg\">p.1</span>a</div><div class=\"cell\"><span class=\"pg\">p.1</span>a</div></div>\n";
    let second = "<div class=\"row chg deleted\"><div class=\"cell\"><span class=\"pg\">p.2</span>b</div><div class=\"cell empty\"></div></div>\n";
    assert!(html.contains(&format!("<main>\n{}{}\n</main>", first, second)));
    assert!(html.contains("変更 0</span>"));
    assert!(html.contains("削除 1</span>"));
    assert!(html.contains("移動 0</span>"));
}
