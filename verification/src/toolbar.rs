//! Formatting actions of the toolbar, applied to the buffer at the cursor
//! or selection.
use vstd::prelude::*;
use crate::strs::{
    byte_slice, concat, lemma_byte_offset_concat, lemma_byte_offset_prefix, lemma_char_start_index,
    lemma_utf8_len_concat, owned, push_char, replace_range,
};
use crate::text_util::{
    byte_len, byte_offset, byte_to_char, char_index_at_byte, char_to_byte,
    chars_of, is_char_start, lemma_byte_offset_bound, utf8_len,
};

verus! {

/// A toolbar (or shortcut) formatting action.
#[derive(Clone, Copy, Debug, PartialEq, Eq, Structural)]
pub enum FormatAction {
    Bold,
    Italic,
    Strikethrough,
    InlineCode,
    CodeBlock,
    Heading(u8),
    Link,
    BulletList,
    NumberedList,
    Quote,
    HorizontalRule,
}

/// Character index of the start of the line holding index `c`.
pub open spec fn line_start_char(s: Seq<char>, c: int) -> int
    decreases c,
{
    if c <= 0 {
        0
    } else if s[c - 1] == '\n' {
        c
    } else {
        line_start_char(s, c - 1)
    }
}

/// The Markdown heading marker of a level: that many `#` and a space.
pub open spec fn heading_prefix(level: nat) -> Seq<char> {
    Seq::new(level, |i: int| '#').push(' ')
}

/// `s` with `r` in place of the characters `lo..hi`; the caret lands after `r`.
pub open spec fn replaced(s: Seq<char>, lo: int, hi: int, r: Seq<char>) -> (Seq<char>, int) {
    (s.subrange(0, lo) + r + s.subrange(hi, s.len() as int), lo + r.len())
}

/// The selected text, or `default` for an empty selection.
pub open spec fn selection_or(s: Seq<char>, lo: int, hi: int, default: Seq<char>) -> Seq<char> {
    if lo < hi {
        s.subrange(lo, hi)
    } else {
        default
    }
}

/// The text and caret after applying `action` to the selection `a..b`
/// (either order; clamped to the text).
pub open spec fn spec_apply_format(s: Seq<char>, action: FormatAction, a: int, b: int) -> (Seq<char>, int) {
    let n = s.len() as int;
    let lo0 = if a <= b { a } else { b };
    let hi0 = if a <= b { b } else { a };
    let lo = if lo0 < n { lo0 } else { n };
    let hi = if hi0 < n { hi0 } else { n };
    let ls = line_start_char(s, lo);
    match action {
        FormatAction::Bold => replaced(s, lo, hi, "**"@ + selection_or(s, lo, hi, "text"@) + "**"@),
        FormatAction::Italic => replaced(s, lo, hi, "*"@ + selection_or(s, lo, hi, "text"@) + "*"@),
        FormatAction::Strikethrough => replaced(s, lo, hi, "~~"@ + selection_or(s, lo, hi, "text"@) + "~~"@),
        FormatAction::InlineCode => replaced(s, lo, hi, "`"@ + selection_or(s, lo, hi, "text"@) + "`"@),
        FormatAction::CodeBlock => replaced(
            s,
            lo,
            hi,
            "```\n"@ + selection_or(s, lo, hi, "code here"@) + "\n```"@,
        ),
        FormatAction::Heading(level) => replaced(s, ls, ls, heading_prefix(level as nat)),
        FormatAction::Link => replaced(s, lo, hi, "["@ + selection_or(s, lo, hi, "link text"@) + "](url)"@),
        FormatAction::BulletList => replaced(s, ls, ls, "- "@),
        FormatAction::NumberedList => replaced(s, ls, ls, "1. "@),
        FormatAction::Quote => replaced(s, ls, ls, "> "@),
        FormatAction::HorizontalRule => replaced(s, hi, hi, "\n---\n"@),
    }
}

/// `ls` is where the line holding index `c` of `s` starts: at or before
/// `c`, at the text's start or just after a newline, with no newline between.
pub open spec fn starts_line_of(s: Seq<char>, ls: int, c: int) -> bool {
    &&& 0 <= ls <= c
    &&& (ls == 0 || s[ls - 1] == '\n')
    &&& forall|j: int| ls <= j < c ==> s[j] != '\n'
}

/// `line_start_char` finds the start of the line holding `c`.
pub proof fn lemma_line_start_char(s: Seq<char>, c: int)
    requires
        0 <= c <= s.len(),
    ensures
        starts_line_of(s, line_start_char(s, c), c),
    decreases c,
{
    if c > 0 && s[c - 1] != '\n' {
        lemma_line_start_char(s, c - 1);
    }
}

/// What a formatting action does, in terms of the selection `lo..hi`
/// (ordered and clamped): the caret is a character index of the new text;
/// a line prefix goes in at the start of the selection's line and the caret
/// lands just after it; a rule goes in after the selection; the other
/// actions replace the selection and the caret lands after what replaced it.
pub proof fn law_apply_format(s: Seq<char>, action: FormatAction, a: int, b: int)
    requires
        0 <= a,
        0 <= b,
    ensures
        ({
            let n = s.len() as int;
            let lo = if a <= b { if a < n { a } else { n } } else { if b < n { b } else { n } };
            let hi = if a <= b { if b < n { b } else { n } } else { if a < n { a } else { n } };
            let ls = line_start_char(s, lo);
            let (t, caret) = spec_apply_format(s, action, a, b);
            &&& 0 <= caret <= t.len()
            &&& starts_line_of(s, ls, lo)
            &&& match action {
                FormatAction::Heading(level) => {
                    &&& t == s.subrange(0, ls) + heading_prefix(level as nat) + s.subrange(ls, n)
                    &&& caret == ls + level + 1
                    &&& forall|j: int| ls <= j < ls + level ==> t[j] == '#'
                    &&& t[ls + level] == ' '
                },
                FormatAction::BulletList => t == s.subrange(0, ls) + "- "@ + s.subrange(ls, n) && caret == ls + 2,
                FormatAction::NumberedList => t == s.subrange(0, ls) + "1. "@ + s.subrange(ls, n) && caret == ls + 3,
                FormatAction::Quote => t == s.subrange(0, ls) + "> "@ + s.subrange(ls, n) && caret == ls + 2,
                FormatAction::HorizontalRule => t == s.subrange(0, hi) + "\n---\n"@ + s.subrange(hi, n) && caret
                    == hi + 5,
                _ => {
                    &&& lo <= caret
                    &&& t == s.subrange(0, lo) + t.subrange(lo, caret) + s.subrange(hi, n)
                },
            }
        }),
{
    let n = s.len() as int;
    let lo = if a <= b { if a < n { a } else { n } } else { if b < n { b } else { n } };
    let hi = if a <= b { if b < n { b } else { n } } else { if a < n { a } else { n } };
    lemma_line_start_char(s, lo);
    let ls = line_start_char(s, lo);
    reveal_strlit("- ");
    reveal_strlit("1. ");
    reveal_strlit("> ");
    reveal_strlit("\n---\n");
    let (t, caret) = spec_apply_format(s, action, a, b);
    match action {
        FormatAction::Heading(level) => {
            let p = heading_prefix(level as nat);
            assert(p.len() == level + 1);
            assert forall|j: int| ls <= j < ls + level implies t[j] == '#' by {
                assert(t[j] == p[j - ls]);
            }
            assert(t[ls + level] == p[level as int]);
        },
        FormatAction::BulletList => {},
        FormatAction::NumberedList => {},
        FormatAction::Quote => {},
        FormatAction::HorizontalRule => {},
        _ => {
            let r = t.subrange(lo, caret);
            assert(t == s.subrange(0, lo) + r + s.subrange(hi, n)) by {
                assert(t =~= s.subrange(0, lo) + r + s.subrange(hi, n));
            }
        },
    }
}

/// Replaces the characters between the byte offsets of character indices
/// `a <= b` with `repl`; returns the byte offset just after `repl`.
fn splice_bytes(text: &mut String, lo: usize, hi: usize, repl: &str, Ghost(a): Ghost<int>, Ghost(b): Ghost<int>) -> (end: usize)
    requires
        0 <= a <= b <= old(text)@.len(),
        lo == byte_offset(old(text)@, a),
        hi == byte_offset(old(text)@, b),
    ensures
        final(text)@ == replaced(old(text)@, a, b, repl@).0,
        end == byte_offset(final(text)@, a + repl@.len()),
        is_char_start(final(text)@, end as int),
        end <= utf8_len(final(text)@),
        char_index_at_byte(final(text)@, end as int) == a + repl@.len(),
{
    let ghost s = text@;
    proof {
        lemma_char_start_index(s, a);
        lemma_char_start_index(s, b);
        if a < b {
            crate::text_util::lemma_byte_offset_strict(s, a, b);
        }
    }
    replace_range(text, lo, hi, repl);
    let ghost t = text@;
    let ghost pre = s.subrange(0, a);
    let ghost r = repl@;
    let ghost post = s.subrange(b, s.len() as int);
    proof {
        assert(t =~= pre + (r + post));
        lemma_byte_offset_concat(pre, r + post, r.len() as int);
        assert((r + post).take(r.len() as int) =~= r);
        lemma_byte_offset_prefix(s, a);
        lemma_byte_offset_bound(t, a + r.len());
        lemma_char_start_index(t, a + r.len());
        assert(t =~= pre + r + post);
    }
    let total = byte_len(text);
    let rb = byte_len(repl);
    proof {
        lemma_utf8_len_concat(pre, r);
        lemma_utf8_len_concat(pre + r, post);
        assert(lo + rb <= total);
    }
    lo + rb
}

/// Wraps the selected bytes `lo..hi` in `pre` and `suf`, or wraps
/// `default` at `lo` for an empty selection; returns the byte offset after
/// the insertion.
fn wrap(
    text: &mut String,
    lo: usize,
    hi: usize,
    pre: &str,
    suf: &str,
    default: &str,
    Ghost(a): Ghost<int>,
    Ghost(b): Ghost<int>,
) -> (end: usize)
    requires
        0 <= a <= b <= old(text)@.len(),
        lo == byte_offset(old(text)@, a),
        hi == byte_offset(old(text)@, b),
    ensures
        ({
            let r = pre@ + selection_or(old(text)@, a, b, default@) + suf@;
            &&& final(text)@ == replaced(old(text)@, a, b, r).0
            &&& is_char_start(final(text)@, end as int)
            &&& end <= utf8_len(final(text)@)
            &&& char_index_at_byte(final(text)@, end as int) == a + r.len()
        }),
{
    let ghost s = text@;
    proof {
        lemma_char_start_index(s, a);
        lemma_char_start_index(s, b);
        if a < b {
            crate::text_util::lemma_byte_offset_strict(s, a, b);
        }
    }
    let inner = if lo < hi {
        owned(byte_slice(text, lo, hi))
    } else {
        proof {
            if a < b {
                crate::text_util::lemma_byte_offset_strict(s, a, b);
            }
        }
        owned(default)
    };
    let head = concat(pre, inner.as_str());
    let repl = concat(head.as_str(), suf);
    splice_bytes(text, lo, hi, repl.as_str(), Ghost(a), Ghost(b))
}

/// Byte offset of the start of the line holding byte offset `byte_pos`.
fn line_start(text: &str, byte_pos: usize, Ghost(c): Ghost<int>) -> (r: usize)
    requires
        0 <= c <= text@.len(),
        byte_pos == byte_offset(text@, c),
    ensures
        r == byte_offset(text@, line_start_char(text@, c)),
        0 <= line_start_char(text@, c) <= c,
{
    proof {
        lemma_char_start_index(text@, c);
        lemma_byte_offset_bound(text@, c);
    }
    let k = byte_to_char(text, byte_pos);
    let cs = chars_of(text);
    let mut i = k;
    while i > 0 && cs[i - 1] != '\n'
        invariant
            cs@ == text@,
            i <= k,
            k == c,
            c <= text@.len(),
            line_start_char(text@, c) == line_start_char(text@, i as int),
        decreases i,
    {
        i = i - 1;
    }
    proof {
        assert(text@.take(text@.len() as int) =~= text@);
    }
    char_to_byte(text, i)
}

/// The heading marker of `level`: that many `#` and a space.
fn heading_marker(level: u8) -> (r: String)
    ensures
        r@ == heading_prefix(level as nat),
{
    let mut out = String::new();
    let mut i: u8 = 0;
    while i < level
        invariant
            i <= level,
            out@ == Seq::new(i as nat, |j: int| '#'),
        decreases level - i,
    {
        proof {
            assert(Seq::new((i + 1) as nat, |j: int| '#') =~= Seq::new(i as nat, |j: int| '#').push('#'));
        }
        push_char(&mut out, '#');
        i = i + 1;
    }
    push_char(&mut out, ' ');
    out
}

/// Apply a format action to `text` at the given cursor/selection range (char indices).
/// Returns the new cursor position as a char index.
pub fn apply_format(text: &mut String, action: &FormatAction, sel_start: usize, sel_end: usize) -> (caret: usize)
    ensures
        (final(text)@, caret as int) == spec_apply_format(old(text)@, *action, sel_start as int, sel_end as int),
{
    let ghost s = text@;
    let ghost n = s.len() as int;
    let lo_char = if sel_start <= sel_end { sel_start } else { sel_end };
    let hi_char = if sel_start <= sel_end { sel_end } else { sel_start };
    let ghost a = if lo_char < n { lo_char as int } else { n };
    let ghost b = if hi_char < n { hi_char as int } else { n };
    let lo = char_to_byte(text, lo_char);
    let hi = char_to_byte(text, hi_char);
    proof {
        assert(s.take(n) =~= s);
        assert(lo == byte_offset(s, a));
        assert(hi == byte_offset(s, b));
    }
    let new_byte = match action {
        FormatAction::Bold => wrap(text, lo, hi, "**", "**", "text", Ghost(a), Ghost(b)),
        FormatAction::Italic => wrap(text, lo, hi, "*", "*", "text", Ghost(a), Ghost(b)),
        FormatAction::Strikethrough => wrap(text, lo, hi, "~~", "~~", "text", Ghost(a), Ghost(b)),
        FormatAction::InlineCode => wrap(text, lo, hi, "`", "`", "text", Ghost(a), Ghost(b)),
        FormatAction::CodeBlock => wrap(text, lo, hi, "```\n", "\n```", "code here", Ghost(a), Ghost(b)),
        FormatAction::Heading(level) => {
            let prefix = heading_marker(*level);
            let line_byte = line_start(text, lo, Ghost(a));
            splice_bytes(text, line_byte, line_byte, prefix.as_str(), Ghost(line_start_char(s, a)), Ghost(line_start_char(s, a)))
        },
        FormatAction::Link => wrap(text, lo, hi, "[", "](url)", "link text", Ghost(a), Ghost(b)),
        FormatAction::BulletList => {
            let lb = line_start(text, lo, Ghost(a));
            splice_bytes(text, lb, lb, "- ", Ghost(line_start_char(s, a)), Ghost(line_start_char(s, a)))
        },
        FormatAction::NumberedList => {
            let lb = line_start(text, lo, Ghost(a));
            splice_bytes(text, lb, lb, "1. ", Ghost(line_start_char(s, a)), Ghost(line_start_char(s, a)))
        },
        FormatAction::Quote => {
            let lb = line_start(text, lo, Ghost(a));
            splice_bytes(text, lb, lb, "> ", Ghost(line_start_char(s, a)), Ghost(line_start_char(s, a)))
        },
        FormatAction::HorizontalRule => splice_bytes(text, hi, hi, "\n---\n", Ghost(b), Ghost(b)),
    };
    byte_to_char(text, new_byte)
}

} // verus!
