use markdown_editor::toolbar::{apply_format, FormatAction};

fn run(text: &str, action: FormatAction, a: usize, b: usize) -> (String, usize) {
    let mut t = String::from(text);
    let caret = apply_format(&mut t, &action, a, b);
    (t, caret)
}

#[test]
fn bold_wraps_the_selection() {
    assert_eq!(run("say hi now", FormatAction::Bold, 4, 6), ("say **hi** now".to_string(), 10));
}

#[test]
fn reversed_selection_is_the_same() {
    assert_eq!(run("say hi now", FormatAction::Italic, 6, 4), ("say *hi* now".to_string(), 8));
}

#[test]
fn empty_selection_inserts_a_placeholder() {
    assert_eq!(run("ab", FormatAction::Strikethrough, 1, 1), ("a~~text~~b".to_string(), 9));
    assert_eq!(run("ab", FormatAction::InlineCode, 1, 1), ("a`text`b".to_string(), 7));
}

#[test]
fn code_block_and_link() {
    assert_eq!(run("x", FormatAction::CodeBlock, 0, 1), ("```\nx\n```".to_string(), 9));
    assert_eq!(run("", FormatAction::CodeBlock, 0, 0), ("```\ncode here\n```".to_string(), 17));
    assert_eq!(run("go here", FormatAction::Link, 3, 7), ("go [here](url)".to_string(), 14));
    assert_eq!(run("", FormatAction::Link, 0, 0), ("[link text](url)".to_string(), 16));
}

#[test]
fn line_prefixes_go_to_the_line_start() {
    assert_eq!(run("one\ntwo", FormatAction::Heading(2), 6, 6), ("one\n## two".to_string(), 7));
    assert_eq!(run("one\ntwo", FormatAction::BulletList, 5, 5), ("one\n- two".to_string(), 6));
    assert_eq!(run("one", FormatAction::NumberedList, 2, 2), ("1. one".to_string(), 3));
    assert_eq!(run("a\nb", FormatAction::Quote, 2, 2), ("a\n> b".to_string(), 4));
}

#[test]
fn horizontal_rule_goes_after_the_selection() {
    assert_eq!(run("ab", FormatAction::HorizontalRule, 0, 1), ("a\n---\nb".to_string(), 6));
}

#[test]
fn multibyte_text_and_clamped_selection() {
    assert_eq!(run("日本語", FormatAction::Bold, 1, 2), ("日**本**語".to_string(), 6));
    assert_eq!(run("日本", FormatAction::Bold, 5, 9), ("日本**text**".to_string(), 10));
}
