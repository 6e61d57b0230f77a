//! The exported HTML document, export file names, the window title and the
//! status bar counts.
use vstd::prelude::*;
use crate::strs::{concat, decimal, decimal_string};

verus! {

/// The HTML that `pulldown_cmark::html::push_html` writes for `markdown`
/// parsed with every extension enabled.
pub uninterp spec fn html_of(markdown: Seq<char>) -> Seq<char>;

/// Calls `pulldown_cmark::html::push_html` on a fresh string with the events
/// of `Parser::new_ext(markdown, Options::all())`. The HTML it writes is
/// CommonMark's rendering, which stays a name here.
#[verifier::external_body]
fn markdown_html(markdown: &str) -> (r: String)
    ensures
        r@ == html_of(markdown@),
{
    let parser = pulldown_cmark::Parser::new_ext(markdown, pulldown_cmark::Options::all());
    let mut body = String::new();
    pulldown_cmark::html::push_html(&mut body, parser);
    body
}

/// The page around the body of an HTML export.
pub open spec fn html_head() -> Seq<char> {
    "<!DOCTYPE html>\n<html lang=\"ja\">\n<head>\n<meta charset=\"utf-8\">\n<meta name=\"viewport\" content=\"width=device-width, initial-scale=1\">\n<style>\nbody{font-family:sans-serif;max-width:800px;margin:40px auto;padding:0 20px;line-height:1.6}\npre{background:#f6f8fa;padding:12px;border-radius:6px;overflow-x:auto}\ncode{background:#f6f8fa;padding:2px 4px;border-radius:3px}\nblockquote{border-left:4px solid #ddd;margin:0;padding-left:16px;color:#555}\n</style>\n</head>\n<body>\n"@
}

/// The end of an HTML export.
pub open spec fn html_tail() -> Seq<char> {
    "\n</body>\n</html>"@
}

/// A complete HTML page showing `markdown` rendered.
pub fn html_document(markdown: &str) -> (r: String)
    ensures
        r@ == html_head() + html_of(markdown@) + html_tail(),
{
    let body = markdown_html(markdown);
    let head = concat("<!DOCTYPE html>\n<html lang=\"ja\">\n<head>\n<meta charset=\"utf-8\">\n<meta name=\"viewport\" content=\"width=device-width, initial-scale=1\">\n<style>\nbody{font-family:sans-serif;max-width:800px;margin:40px auto;padding:0 20px;line-height:1.6}\npre{background:#f6f8fa;padding:12px;border-radius:6px;overflow-x:auto}\ncode{background:#f6f8fa;padding:2px 4px;border-radius:3px}\nblockquote{border-left:4px solid #ddd;margin:0;padding-left:16px;color:#555}\n</style>\n</head>\n<body>\n", body.as_str());
    concat(head.as_str(), "\n</body>\n</html>")
}

/// The file name an export offers: the document's stem with the export's
/// extension, or `output` for an untitled document.
pub fn default_export_name(stem: Option<&str>, ext: &str) -> (r: String)
    ensures
        r@ == (match stem {
            Some(s) => s@,
            None => "output"@,
        }) + "."@ + ext@,
{
    let base = match stem {
        Some(s) => concat(s, "."),
        None => "output.".to_owned(),
    };
    proof {
        reveal_strlit("output.");
        reveal_strlit("output");
        reveal_strlit(".");
    }
    concat(base.as_str(), ext)
}

/// The window title, with a dot marking unsaved changes.
pub fn window_title(dirty: bool, name: Option<&str>) -> (r: String)
    ensures
        r@ == (if dirty { "● "@ } else { ""@ }) + (match name {
            Some(n) => n@,
            None => "untitled"@,
        }) + " — Markdown Editor (Rust + egui)"@,
{
    let lead = if dirty { "● " } else { "" };
    let n = match name {
        Some(n) => n,
        None => "untitled",
    };
    let head = concat(lead, n);
    concat(head.as_str(), " — Markdown Editor (Rust + egui)")
}

/// Number of `\n` in `s`.
pub open spec fn newline_count(s: Seq<char>) -> nat
    decreases s.len(),
{
    if s.len() == 0 {
        0
    } else {
        newline_count(s.drop_last()) + if s.last() == '\n' { 1nat } else { 0 }
    }
}

/// There are no more newlines than characters.
proof fn lemma_newline_count_bound(s: Seq<char>)
    ensures
        newline_count(s) <= s.len(),
    decreases s.len(),
{
    if s.len() > 0 {
        lemma_newline_count_bound(s.drop_last());
    }
}

/// Number of lines `str::lines` yields: one per `\n`, and one more for a
/// last line without a `\n`.
pub open spec fn line_count(s: Seq<char>) -> nat {
    newline_count(s) + if s.len() > 0 && s.last() != '\n' { 1nat } else { 0 }
}

/// The status bar's count text: characters, and lines (at least one).
pub open spec fn spec_counts_label(s: Seq<char>) -> Seq<char> {
    let lines = line_count(s);
    decimal(s.len()) + " 文字  "@ + decimal(if lines > 0 { lines } else { 1 }) + " 行"@
}

/// The status bar's character and line counts of `text`.
pub fn counts_label(text: &str) -> (r: String)
    ensures
        r@ == spec_counts_label(text@),
{
    let cs = crate::text_util::chars_of(text);
    let mut nl: usize = 0;
    let mut i: usize = 0;
    while i < cs.len()
        invariant
            i <= cs@.len(),
            nl == newline_count(cs@.take(i as int)),
            nl <= i,
        decreases cs@.len() - i,
    {
        proof {
            assert(cs@.take(i + 1).drop_last() =~= cs@.take(i as int));
        }
        if cs[i] == '\n' {
            nl = nl + 1;
        }
        i = i + 1;
    }
    proof {
        assert(cs@.take(cs@.len() as int) =~= cs@);
        if cs@.len() > 0 {
            lemma_newline_count_bound(cs@.drop_last());
        }
    }
    let lines = if cs.len() > 0 && cs[cs.len() - 1] != '\n' { nl + 1 } else { nl };
    let lines = if lines > 0 { lines } else { 1 };
    let a = concat(decimal_string(cs.len() as u64).as_str(), " 文字  ");
    let b = concat(a.as_str(), decimal_string(lines as u64).as_str());
    concat(b.as_str(), " 行")
}

} // verus!
