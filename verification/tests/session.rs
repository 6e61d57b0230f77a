use markdown_editor::ai::{lang_name, request_content, AiPanel};
use markdown_editor::doc::{Choice, ConfirmStep, DocState, PendingAction};
use markdown_editor::export::{counts_label, default_export_name, html_document, window_title};
use markdown_editor::scroll::{lead, Lead};
use markdown_editor::shortcuts::hint;
use markdown_editor::strs::decimal_string;

#[test]
fn clean_document_performs_requests_at_once() {
    let mut d = DocState::new();
    assert!(matches!(d.request(PendingAction::New), Some(PendingAction::New)));
    assert!(d.confirm.is_none());
}

#[test]
fn dirty_document_asks_first() {
    let mut d = DocState::new();
    d.mark_edited();
    assert!(d.dirty);
    assert_eq!(d.text_rev, 1);
    assert!(d.request(PendingAction::Open).is_none());
    assert!(matches!(d.confirm, Some(PendingAction::Open)));
    match d.answer(Choice::Discard, true) {
        ConfirmStep::Perform(PendingAction::Open) => {}
        _ => panic!("discard must perform the action"),
    }
    assert!(!d.dirty);
    assert!(d.confirm.is_none());
}

#[test]
fn save_without_path_waits_for_save_as() {
    let mut d = DocState::new();
    d.mark_edited();
    d.request(PendingAction::OpenPath("a.md".to_string()));
    assert!(matches!(d.answer(Choice::Save, false), ConfirmStep::SaveAs));
    match d.save_as_succeeded() {
        Some(PendingAction::OpenPath(p)) => assert_eq!(p, "a.md"),
        _ => panic!("the waiting action must resume"),
    }
    assert!(!d.dirty);
    assert_eq!(d.text_rev, 2);
}

#[test]
fn cancel_and_failed_save_as() {
    let mut d = DocState::new();
    d.mark_edited();
    d.request(PendingAction::New);
    assert!(matches!(d.answer(Choice::Cancel, true), ConfirmStep::Nothing));
    assert!(d.dirty);
    assert!(matches!(d.answer(Choice::Save, true), ConfirmStep::Nothing));
    d.request(PendingAction::New);
    assert!(matches!(d.answer(Choice::Save, true), ConfirmStep::SaveThenPerform(PendingAction::New)));
    d.after_save = Some(PendingAction::Quit);
    d.save_as_failed();
    assert!(d.after_save.is_none());
}

#[test]
fn closing_a_dirty_window_is_cancelled_until_quit_is_allowed() {
    let mut d = DocState::new();
    assert!(!d.close_requested());
    d.mark_edited();
    assert!(d.close_requested());
    assert!(matches!(d.confirm, Some(PendingAction::Quit)));
    d.allow_quit();
    assert!(!d.close_requested());
    d.save_succeeded();
    assert!(!d.dirty);
    assert_eq!(d.text_rev, 1);
}

#[test]
fn revision_wraps_around() {
    let mut d = DocState::new();
    d.text_rev = u64::MAX;
    d.mark_saved();
    assert_eq!(d.text_rev, 0);
}

#[test]
fn ai_prompts_and_replies() {
    let mut p = AiPanel::new();
    assert!(!p.can_send(""));
    assert!(p.can_send("sk"));
    p.translate_lang = 3;
    assert_eq!(
        p.translate_prompt(),
        "以下のMarkdownをFrançaisに翻訳してください。Markdownの書式（見出し・リスト・コードブロック等）は維持してください。"
    );
    assert!(AiPanel::summary_prompt().starts_with("以下のMarkdownを日本語で要約"));
    assert!(AiPanel::proofread_prompt().ends_with("全文を返してください。"));
    assert_eq!(lang_name(1), "日本語");
    p.begin_send();
    assert!(!p.can_send("sk"));
    let mut md = String::from("old");
    assert!(!p.finish(Err("boom".to_string()), &mut md));
    assert_eq!(md, "old");
    assert_eq!(p.status.as_deref(), Some("Error: boom"));
    assert!(p.status_is_error());
    assert!(p.finish(Ok("new".to_string()), &mut md));
    assert_eq!(md, "new");
    assert_eq!(p.status.as_deref(), Some("完了"));
    assert!(!p.status_is_error());
    assert_eq!(request_content("P", "M"), "P\n\n---\n\nM");
}

#[test]
fn export_names_titles_and_counts() {
    assert_eq!(default_export_name(Some("notes"), "docx"), "notes.docx");
    assert_eq!(default_export_name(None, "txt"), "output.txt");
    assert_eq!(window_title(true, Some("a.md")), "● a.md — Markdown Editor (Rust + egui)");
    assert_eq!(window_title(false, None), "untitled — Markdown Editor (Rust + egui)");
    assert_eq!(counts_label(""), "0 文字  1 行");
    assert_eq!(counts_label("ab\ncd\n"), "6 文字  2 行");
    assert_eq!(counts_label("日本\n語"), "4 文字  2 行");
}

#[test]
fn html_export_renders_markdown() {
    let html = html_document("# Hi");
    assert!(html.starts_with("<!DOCTYPE html>\n<html lang=\"ja\">"));
    assert!(html.contains("<body>\n<h1>Hi</h1>"));
    assert!(!html.contains("# Hi"));
    assert!(html.ends_with("\n</body>\n</html>"));
}

#[test]
fn shortcut_hints() {
    assert_eq!(hint(false, true, "S"), "Ctrl+Shift+S");
    assert_eq!(hint(false, false, "N"), "Ctrl+N");
    assert_eq!(hint(true, true, "O"), "\u{21e7}\u{2318}O");
    assert_eq!(hint(true, false, "F"), "\u{2318}F");
}

#[test]
fn scroll_leader() {
    assert_eq!(lead(true, true, true, false, false), Lead::Editor);
    assert_eq!(lead(true, false, true, true, true), Lead::Preview);
    assert_eq!(lead(true, true, false, false, true), Lead::Neither);
    assert_eq!(lead(false, true, true, true, true), Lead::Neither);
}

#[test]
fn decimal_rendering() {
    assert_eq!(decimal_string(0), "0");
    assert_eq!(decimal_string(907), "907");
    assert_eq!(decimal_string(u64::MAX), u64::MAX.to_string());
}
