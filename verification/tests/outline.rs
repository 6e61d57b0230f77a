use markdown_editor::outline::{active_index, parse};

#[test]
fn parses_levels_and_offsets() {
    let md = "# One\n\ntext\n## Two\n";
    let hs = parse(md);
    assert_eq!(hs.len(), 2);
    assert_eq!((hs[0].level, hs[0].text.as_str(), hs[0].char_start), (1, "One", 0));
    assert_eq!((hs[1].level, hs[1].text.as_str()), (2, "Two"));
    assert_eq!(&md[hs[1].char_start..hs[1].char_start + 6], "## Two");
}

#[test]
fn skips_hashes_inside_fenced_code() {
    let hs = parse("# Real\n\n```\n# not a heading\n```\n\n## Also real\n");
    let titles: Vec<_> = hs.iter().map(|h| h.text.as_str()).collect();
    assert_eq!(titles, ["Real", "Also real"]);
}

#[test]
fn tilde_fence_is_not_closed_by_backticks() {
    let hs = parse("~~~\n# hidden\n```\n# still hidden\n~~~\n# visible\n");
    let titles: Vec<_> = hs.iter().map(|h| h.text.as_str()).collect();
    assert_eq!(titles, ["visible"]);
}

#[test]
fn requires_space_after_hashes() {
    assert!(parse("#hashtag\n").is_empty());
    assert_eq!(parse("####### seven\n").len(), 0);
}

#[test]
fn char_offsets_are_correct_after_multibyte_lines() {
    let md = "日本語のテキスト\n# 見出し\n";
    let hs = parse(md);
    assert_eq!(hs[0].char_start, 9); // 8 chars + newline
    assert_eq!(hs[0].text, "見出し");
}

#[test]
fn strips_closing_hashes() {
    assert_eq!(parse("## Title ##\n")[0].text, "Title");
}

#[test]
fn active_index_tracks_the_cursor() {
    let hs = parse("# A\n\n# B\n");
    assert_eq!(active_index(&hs, 0), Some(0));
    assert_eq!(active_index(&hs, 4), Some(0));
    assert_eq!(active_index(&hs, 6), Some(1));
}

#[test]
fn empty_heading_is_untitled() {
    let hs = parse("#\n## ##\n");
    let titles: Vec<_> = hs.iter().map(|h| h.text.as_str()).collect();
    assert_eq!(titles, ["(untitled)", "(untitled)"]);
}

#[test]
fn indented_heading_and_crlf_lines() {
    let hs = parse("   ### Deep\r\nplain\r\n###### Six");
    assert_eq!(hs.len(), 2);
    assert_eq!((hs[0].level, hs[0].text.as_str(), hs[0].char_start), (3, "Deep", 0));
    assert_eq!((hs[1].level, hs[1].text.as_str(), hs[1].char_start), (6, "Six", 20));
}

#[test]
fn tab_after_hashes_counts_as_whitespace() {
    let hs = parse("#\tTabbed\n");
    assert_eq!(hs[0].text, "Tabbed");
}

#[test]
fn unclosed_fence_hides_the_rest() {
    assert!(parse("```\n# a\n# b\n").is_empty());
}

#[test]
fn no_heading_before_cursor() {
    let hs = parse("text\n# A\n");
    assert_eq!(active_index(&hs, 2), None);
    assert_eq!(active_index(&[], 2), None);
}

#[test]
fn unicode_whitespace_after_hashes() {
    let hs = parse("#\u{3000}全角\n#\u{200B}zero width\n");
    assert_eq!(hs.len(), 1);
    assert_eq!(hs[0].text, "全角");
}

#[test]
fn a_plain_line_in_front_moves_every_heading() {
    let body = "# A\n\n## B\n";
    let before = parse(body);
    let after = parse(&format!("intro line\n{body}"));
    assert_eq!(before.len(), after.len());
    for (x, y) in before.iter().zip(after.iter()) {
        assert_eq!((x.level, x.text.as_str()), (y.level, y.text.as_str()));
        assert_eq!(y.char_start, x.char_start + 11);
    }
}
