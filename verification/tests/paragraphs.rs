use document_diff_report::extract::{extract_blocks, lines_to_paragraphs, split_lines};

fn lines(v: &[&str]) -> Vec<String> {
    v.iter().map(|s| s.to_string()).collect()
}

#[test]
fn blank_lines_separate_paragraphs() {
    let p = lines_to_paragraphs(&lines(&["first line", "continues", "", "second"]));
    assert_eq!(p, vec!["first line continues".to_string(), "second".to_string()]);
}

#[test]
fn cjk_lines_join_without_space() {
    let p = lines_to_paragraphs(&lines(&["日本語の文章が", "続いています"]));
    assert_eq!(p, vec!["日本語の文章が続いています".to_string()]);
}

#[test]
fn mixed_lines_join_with_one_space() {
    let p = lines_to_paragraphs(&lines(&["日本語", "abc"]));
    assert_eq!(p, vec!["日本語 abc".to_string()]);
}

#[test]
fn sentence_end_closes_paragraph() {
    let p = lines_to_paragraphs(&lines(&["これで終わり。", "次の段落"]));
    assert_eq!(p, vec!["これで終わり。".to_string(), "次の段落".to_string()]);
}

#[test]
fn bullets_and_numbers_open_paragraphs() {
    let p = lines_to_paragraphs(&lines(&["前文", "・箇条書き", "①丸数字", "(1)括弧"]));
    assert_eq!(p, lines(&["前文", "・箇条書き", "①丸数字", "(1)括弧"]));
}

#[test]
fn short_headings_stand_alone() {
    let p = lines_to_paragraphs(&lines(&["第1 事業の目的", "本事業は", "支援する"]));
    assert_eq!(p, lines(&["第1 事業の目的", "本事業は支援する"]));
}

#[test]
fn kanji_numbered_chapter_opens_but_is_not_a_heading() {
    let p = lines_to_paragraphs(&lines(&["前文", "第三章 概要", "つづき"]));
    assert_eq!(p, lines(&["前文", "第三章 概要つづき"]));
}

#[test]
fn page_numbers_are_dropped() {
    let p = lines_to_paragraphs(&lines(&["本文", "", "12", "", "12345"]));
    assert_eq!(p, lines(&["本文", "12345"]));
}

#[test]
fn dot_leaders_collapse() {
    let p = lines_to_paragraphs(&lines(&["目次........3ページ"]));
    assert_eq!(p, lines(&["目次……3ページ"]));
    let q = lines_to_paragraphs(&lines(&["a..b"]));
    assert_eq!(q, lines(&["a..b"]));
}

#[test]
fn lines_are_trimmed() {
    let p = lines_to_paragraphs(&lines(&["  text  ", "\t"]));
    assert_eq!(p, lines(&["text"]));
}

#[test]
fn split_lines_follows_str_lines() {
    assert_eq!(split_lines("a\r\nb\n\nc\n"), lines(&["a", "b", "", "c"]));
    assert_eq!(split_lines(""), Vec::<String>::new());
    assert_eq!(split_lines("\n"), lines(&[""]));
    assert_eq!(split_lines("x\r"), lines(&["x\r"]));
}

#[test]
fn pages_are_labelled_from_one() {
    let blocks = extract_blocks(&["一枚目の本文".to_string(), "".to_string(), "3\n\n三枚目".to_string()]);
    assert_eq!(blocks.len(), 2);
    assert_eq!(blocks[0].loc, "p.1");
    assert_eq!(blocks[0].text, "一枚目の本文");
    assert_eq!(blocks[1].loc, "p.3");
    assert_eq!(blocks[1].text, "三枚目");
}
