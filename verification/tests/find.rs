use markdown_editor::find::{find_matches, fold, FindOutcome, FindReplace};

#[test]
fn finds_non_overlapping_matches() {
    assert_eq!(find_matches("aaaa", "aa", true), vec![(0, 2), (2, 4)]);
}

#[test]
fn respects_case_sensitivity() {
    assert!(find_matches("Hello", "hello", true).is_empty());
    assert_eq!(find_matches("Hello", "hello", false), vec![(0, 5)]);
}

#[test]
fn returns_char_indices_not_byte_indices() {
    // "日本語" is 9 bytes but 3 chars; the match must start at char 3.
    assert_eq!(find_matches("日本語text", "text", true), vec![(3, 7)]);
}

#[test]
fn empty_query_matches_nothing() {
    assert!(find_matches("anything", "", false).is_empty());
}

#[test]
fn replaces_every_match_back_to_front() {
    let mut fr = FindReplace {
        query: "本".into(),
        replace_with: "BOOK".into(),
        ..Default::default()
    };
    let mut text = String::from("日本語と本");
    fr.refresh(&text, 0);
    assert_eq!(fr.replace_all(&mut text), 2);
    assert_eq!(text, "日BOOK語とBOOK");
}

#[test]
fn replace_current_splices_only_the_selected_match() {
    let mut fr = FindReplace {
        query: "x".into(),
        replace_with: "y".into(),
        ..Default::default()
    };
    let mut text = String::from("axbxc");
    fr.refresh(&text, 0);
    fr.step(true);
    assert!(fr.replace_current(&mut text));
    assert_eq!(text, "aybxc");
}

#[test]
fn longer_query_than_text_matches_nothing() {
    assert!(find_matches("ab", "abc", true).is_empty());
}

#[test]
fn non_ascii_case_folding() {
    assert_eq!(find_matches("ÀB", "àb", false), vec![(0, 2)]);
    assert!(find_matches("ÀB", "àb", true).is_empty());
}

#[test]
fn steps_wrap_around_both_ways() {
    let mut fr = FindReplace { query: "a".into(), ..Default::default() };
    fr.refresh("a-a-a", 0);
    assert_eq!(fr.step(false), Some((4, 5)));
    assert_eq!(fr.step(true), Some((0, 1)));
    assert_eq!(fr.step(true), Some((2, 3)));
    assert_eq!(fr.step(false), Some((0, 1)));
    assert_eq!(fr.step(false), Some((4, 5)));
}

#[test]
fn step_without_matches_selects_nothing() {
    let mut fr = FindReplace { query: "zz".into(), ..Default::default() };
    assert_eq!(fr.step_external("abc", 1, true), None);
    assert_eq!(fr.current, None);
}

#[test]
fn refresh_keeps_cache_for_same_revision() {
    let mut fr = FindReplace { query: "a".into(), ..Default::default() };
    fr.refresh("aa", 7);
    assert_eq!(fr.matches.len(), 2);
    // Same revision: the cached matches are kept even for other text.
    fr.refresh("a", 7);
    assert_eq!(fr.matches.len(), 2);
    // A new revision recomputes and clamps the current match.
    fr.current = Some(1);
    fr.refresh("a", 8);
    assert_eq!(fr.matches, vec![(0, 1)]);
    assert_eq!(fr.current, Some(0));
}

#[test]
fn replace_current_without_selection_does_nothing() {
    let mut fr = FindReplace { query: "x".into(), replace_with: "y".into(), ..Default::default() };
    let mut text = String::from("axb");
    fr.refresh(&text, 0);
    assert!(!fr.replace_current(&mut text));
    assert_eq!(text, "axb");
}

#[test]
fn replace_all_with_multibyte_replacement() {
    let mut fr = FindReplace { query: "ab".into(), replace_with: "日本".into(), ..Default::default() };
    let mut text = String::from("xabyabz");
    fr.refresh(&text, 0);
    fr.step(true);
    assert_eq!(fr.replace_all(&mut text), 2);
    assert_eq!(text, "x日本y日本z");
    assert_eq!(fr.current, None);
    assert!(fr.cache_key.is_none());
}

#[test]
fn open_close_and_focus() {
    let mut fr = FindReplace::new();
    fr.open();
    assert!(fr.visible);
    assert!(fr.take_focus_request());
    assert!(!fr.take_focus_request());
    fr.current = None;
    fr.close();
    assert!(!fr.visible);
    assert_eq!(fr.current, None);
}

#[test]
fn match_label_texts() {
    let mut fr = FindReplace::new();
    assert_eq!(fr.match_label(), "");
    fr.query = "q".into();
    fr.refresh("abc", 0);
    assert_eq!(fr.match_label(), "0 件");
    fr.query = "b".into();
    fr.refresh("abcb", 1);
    assert_eq!(fr.match_label(), "- / 2");
    fr.step(true);
    fr.step(true);
    assert_eq!(fr.match_label(), "2 / 2");
}

#[test]
fn outcome_default_is_empty() {
    let o = FindOutcome::default();
    assert!(o.select.is_none());
    assert!(!o.text_changed);
}

#[test]
fn replace_then_replace_walks_forward() {
    let mut fr = FindReplace {
        query: "x".into(),
        replace_with: "yy".into(),
        ..Default::default()
    };
    let mut text = String::from("axbxcx");
    fr.refresh(&text, 0);
    assert_eq!(fr.step(true), Some((1, 2)));
    assert!(fr.replace_current(&mut text));
    assert_eq!(text, "ayybxcx");
    fr.refresh(&text, 1);
    assert_eq!(fr.matches, vec![(4, 5), (6, 7)]);
    assert_eq!(fr.current, Some(0));
    assert!(fr.replace_current(&mut text));
    assert_eq!(text, "ayybyycx");
}

#[test]
fn shortcut_steps_wrap_and_keep_the_fields() {
    let mut fr = FindReplace { query: "a".into(), replace_with: "b".into(), ..Default::default() };
    let text = "a-a-a";
    assert_eq!(fr.step_external(text, 3, true), Some((0, 1)));
    assert_eq!(fr.step_external(text, 3, true), Some((2, 3)));
    assert_eq!(fr.step_external(text, 3, false), Some((0, 1)));
    assert_eq!(fr.step_external(text, 3, false), Some((4, 5)));
    assert_eq!(fr.step_external(text, 3, true), Some((0, 1)));
    assert_eq!(fr.query, "a");
    assert_eq!(fr.replace_with, "b");
    assert!(!fr.visible);
    fr.close();
    assert_eq!(fr.step_external(text, 3, true), Some((0, 1)));
}

#[test]
fn step_external_clamps_after_an_edit() {
    let mut fr = FindReplace { query: "a".into(), ..Default::default() };
    fr.refresh("aaa", 0);
    fr.current = Some(2);
    // The text lost two matches: the current one is clamped to the last,
    // and the step wraps to the first.
    assert_eq!(fr.step_external("a", 1, true), Some((0, 1)));
    assert_eq!(fr.current, Some(0));
}

#[test]
fn escape_and_shortcut_step() {
    let mut fr = FindReplace { query: "x".into(), ..Default::default() };
    fr.escape();
    assert!(!fr.visible);
    assert_eq!(fr.shortcut_step("axbx", 0, false), Some((3, 4)));
    assert!(fr.visible);
    fr.escape();
    assert!(!fr.visible);
    assert_eq!(fr.current, None);
}

#[test]
fn folding_of_single_characters() {
    assert_eq!(fold('Q', false), 'q');
    assert_eq!(fold('Q', true), 'Q');
    assert_eq!(fold('Ä', false), 'ä');
    assert_eq!(fold('7', false), '7');
}

#[test]
fn greedy_scan_restarts_after_each_match() {
    assert_eq!(find_matches("aaaaa", "aa", true), vec![(0, 2), (2, 4)]);
    assert_eq!(find_matches("xabab", "ab", true), vec![(1, 3), (3, 5)]);
}

#[test]
fn as_many_steps_as_matches_come_back() {
    let mut fr = FindReplace { query: "o".into(), ..Default::default() };
    let text = "foo bo";
    fr.refresh(text, 0);
    fr.current = Some(1);
    for _ in 0..3 {
        fr.step(true);
    }
    assert_eq!(fr.current, Some(1));
    for _ in 0..3 {
        fr.step_external(text, 0, false);
    }
    assert_eq!(fr.current, Some(1));
}
