//! Document outline: ATX headings parsed straight from the buffer.
//!
//! Parsing is line-based so that each heading carries the character offset
//! of its line, where a click on it moves the editor cursor.
use vstd::prelude::*;
use crate::chars::{
    char_is_whitespace, is_white, string_of_range, trim, trim_end_by, trim_end_char,
    trim_end_newlines, trim_end_white, trim_start_by, trim_start_white, white,
};
use crate::text_util::chars_of;

verus! {

/// One ATX heading of the outline.
pub struct Heading {
    pub level: u8,
    pub text: String,
    /// Character index of the start of the heading's line.
    pub char_start: usize,
}

impl View for Heading {
    type V = (int, Seq<char>, int);

    open spec fn view(&self) -> (int, Seq<char>, int) {
        (self.level as int, self.text@, self.char_start as int)
    }
}

/// The headings read as (level, title, line start).
pub open spec fn heading_views(v: Seq<Heading>) -> Seq<(int, Seq<char>, int)> {
    v.map_values(|h: Heading| h@)
}

/// Index just past the line that starts at `i`: past its `\n`, or the end
/// of the text.
pub open spec fn line_end(s: Seq<char>, i: int) -> int
    decreases s.len() - i,
{
    if i >= s.len() {
        s.len() as int
    } else if s[i] == '\n' {
        i + 1
    } else {
        line_end(s, i + 1)
    }
}

/// A line that starts inside the text ends after it starts.
pub proof fn lemma_line_end(s: Seq<char>, i: int)
    requires
        0 <= i < s.len(),
    ensures
        i < line_end(s, i) <= s.len(),
        forall|j: int| i <= j < line_end(s, i) - 1 ==> s[j] != '\n',
        line_end(s, i) < s.len() ==> s[line_end(s, i) - 1] == '\n',
    decreases s.len() - i,
{
    if s[i] != '\n' {
        if i + 1 < s.len() {
            lemma_line_end(s, i + 1);
        } else {
            assert(line_end(s, i + 1) == s.len());
        }
    }
}

/// Line terminators, as `trim_end_matches(['\n', '\r'])` removes them.
pub open spec fn newline_char() -> spec_fn(char) -> bool {
    |x: char| x == '\n' || x == '\r'
}

/// The `#` character, as `trim_end_matches('#')` removes it.
pub open spec fn hash_char() -> spec_fn(char) -> bool {
    |x: char| x == '#'
}

/// The fence character that a (trimmed) line opens or closes a fenced code
/// block with: three backticks or three tildes.
pub open spec fn fence_marker(t: Seq<char>) -> Option<char> {
    if t.len() >= 3 && t[0] == '`' && t[1] == '`' && t[2] == '`' {
        Some('`')
    } else if t.len() >= 3 && t[0] == '~' && t[1] == '~' && t[2] == '~' {
        Some('~')
    } else {
        None
    }
}

/// The fence state after a fence line with marker `c`: it opens a block, or
/// closes the block that the same marker opened.
pub open spec fn next_fence(fence: Option<char>, c: char) -> Option<char> {
    match fence {
        None => Some(c),
        Some(open) => if open == c {
            None
        } else {
            fence
        },
    }
}

/// Number of leading `#` characters.
pub open spec fn hash_run(t: Seq<char>) -> nat
    decreases t.len(),
{
    if t.len() > 0 && t[0] == '#' {
        1 + hash_run(t.drop_first())
    } else {
        0
    }
}

/// The level and title of a trimmed line outside code blocks, if it is an
/// ATX heading: one to six `#`, then whitespace or the end of the line.
pub open spec fn heading_of_line(t: Seq<char>) -> Option<(int, Seq<char>)> {
    let level = hash_run(t);
    let rest = t.skip(level as int);
    if level == 0 || level > 6 || (rest.len() > 0 && !is_white(rest[0])) {
        None
    } else {
        let title = trim(trim_end_by(trim(rest), hash_char()));
        Some((level as int, if title.len() == 0 { "(untitled)"@ } else { title }))
    }
}

/// The line starting at `pos`, without its line terminators and leading
/// whitespace.
pub open spec fn trimmed_line(s: Seq<char>, pos: int) -> Seq<char> {
    trim_start_by(trim_end_by(s.subrange(pos, line_end(s, pos)), newline_char()), white())
}

/// The headings of the lines from `pos` on, with `fence` the open code
/// fence at `pos`.
pub open spec fn headings_from(s: Seq<char>, pos: int, fence: Option<char>) -> Seq<(int, Seq<char>, int)>
    decreases s.len() - pos,
{
    if pos < 0 || pos >= s.len() {
        Seq::empty()
    } else {
        proof {
            lemma_line_end(s, pos);
        }
        let end = line_end(s, pos);
        let t = trimmed_line(s, pos);
        match fence_marker(t) {
            Some(c) => headings_from(s, end, next_fence(fence, c)),
            None => if fence is Some {
                headings_from(s, end, fence)
            } else {
                match heading_of_line(t) {
                    Some(h) => seq![(h.0, h.1, pos)] + headings_from(s, end, fence),
                    None => headings_from(s, end, fence),
                }
            },
        }
    }
}

/// The outline of a text: its ATX headings outside fenced code blocks.
pub open spec fn spec_parse(s: Seq<char>) -> Seq<(int, Seq<char>, int)> {
    headings_from(s, 0, None)
}

/// `i` is where a line of `s` starts.
pub open spec fn is_line_start(s: Seq<char>, i: int) -> bool {
    0 <= i < s.len() && (i == 0 || s[i - 1] == '\n')
}

/// Each heading is at level one to six, has a non-empty title and starts a
/// line at or after `pos`; the headings come in increasing line order.
pub open spec fn well_formed_outline(s: Seq<char>, hs: Seq<(int, Seq<char>, int)>, pos: int) -> bool {
    &&& forall|k: int|
        0 <= k < hs.len() ==> {
            &&& 1 <= #[trigger] hs[k].0 <= 6
            &&& hs[k].1.len() > 0
            &&& pos <= hs[k].2
            &&& is_line_start(s, hs[k].2)
        }
    &&& forall|k: int| 0 <= k < hs.len() - 1 ==> #[trigger] hs[k].2 < hs[k + 1].2
}

/// The headings from a line start on are well formed.
pub proof fn lemma_headings_well_formed(s: Seq<char>, pos: int, fence: Option<char>)
    requires
        0 <= pos,
        pos == 0 || pos >= s.len() || s[pos - 1] == '\n',
    ensures
        well_formed_outline(s, headings_from(s, pos, fence), pos),
    decreases s.len() - pos,
{
    if pos < s.len() {
        lemma_line_end(s, pos);
        let end = line_end(s, pos);
        let t = trimmed_line(s, pos);
        let next = match fence_marker(t) {
            Some(c) => next_fence(fence, c),
            None => fence,
        };
        lemma_headings_well_formed(s, end, next);
        let rest = headings_from(s, end, next);
        let hs = headings_from(s, pos, fence);
        if fence_marker(t) is None && fence is None && heading_of_line(t) is Some {
            let h = heading_of_line(t)->0;
            reveal_strlit("(untitled)");
            assert(hs == seq![(h.0, h.1, pos)] + rest);
            assert forall|k: int| 0 <= k < hs.len() implies {
                &&& 1 <= #[trigger] hs[k].0 <= 6
                &&& hs[k].1.len() > 0
                &&& pos <= hs[k].2
                &&& is_line_start(s, hs[k].2)
            } by {
                if k > 0 {
                    assert(hs[k] == rest[k - 1]);
                }
            }
            assert forall|k: int| 0 <= k < hs.len() - 1 implies #[trigger] hs[k].2 < hs[k + 1].2 by {
                assert(hs[k + 1] == rest[k]);
                if k > 0 {
                    assert(hs[k] == rest[k - 1]);
                } else {
                    assert(hs[0].2 == pos);
                    assert(1 <= rest[0].0 <= 6);
                    assert(end <= rest[0].2);
                }
            }
        }
    }
}

/// Every heading of the outline is at level one to six, has a non-empty
/// title and starts a line of the text, and the headings come in the order
/// of their lines.
pub proof fn law_outline_well_formed(s: Seq<char>)
    ensures
        well_formed_outline(s, spec_parse(s), 0),
{
    lemma_headings_well_formed(s, 0, None);
}

/// The line `t` (trimmed) of a heading of level `level`: that many `#`,
/// then whitespace or the end of the line.
pub open spec fn heading_line_shape(t: Seq<char>, level: int) -> bool {
    &&& 1 <= level <= 6
    &&& level <= t.len()
    &&& forall|j: int| 0 <= j < level ==> t[j] == '#'
    &&& (t.len() == level || is_white(t[level]))
}

/// `hash_run(t)` counts `#` characters at the start of `t`.
proof fn lemma_hash_run(t: Seq<char>)
    ensures
        hash_run(t) <= t.len(),
        forall|j: int| 0 <= j < hash_run(t) ==> t[j] == '#',
    decreases t.len(),
{
    if t.len() > 0 && t[0] == '#' {
        lemma_hash_run(t.drop_first());
        assert forall|j: int| 0 <= j < hash_run(t) implies t[j] == '#' by {
            if j > 0 {
                assert(t[j] == t.drop_first()[j - 1]);
            }
        }
    }
}

/// The headings found from `pos` on are on heading-shaped lines.
proof fn lemma_heading_lines_from(s: Seq<char>, pos: int, fence: Option<char>)
    requires
        0 <= pos,
    ensures
        forall|k: int|
            0 <= k < headings_from(s, pos, fence).len() ==> heading_line_shape(
                trimmed_line(s, #[trigger] headings_from(s, pos, fence)[k].2),
                headings_from(s, pos, fence)[k].0,
            ),
    decreases s.len() - pos,
{
    if pos < s.len() {
        lemma_line_end(s, pos);
        let end = line_end(s, pos);
        let t = trimmed_line(s, pos);
        let next = match fence_marker(t) {
            Some(c) => next_fence(fence, c),
            None => fence,
        };
        lemma_heading_lines_from(s, end, next);
        let rest = headings_from(s, end, next);
        let hs = headings_from(s, pos, fence);
        if fence_marker(t) is None && fence is None && heading_of_line(t) is Some {
            let h = heading_of_line(t)->0;
            lemma_hash_run(t);
            assert(hs == seq![(h.0, h.1, pos)] + rest);
            assert forall|k: int| 0 <= k < hs.len() implies heading_line_shape(
                trimmed_line(s, #[trigger] hs[k].2),
                hs[k].0,
            ) by {
                if k > 0 {
                    assert(hs[k] == rest[k - 1]);
                } else {
                    let level = hash_run(t) as int;
                    assert(hs[0].0 == level);
                    if t.len() > level {
                        assert(t.skip(level)[0] == t[level]);
                    }
                }
            }
        } else {
            assert(hs == rest);
        }
    }
}

/// Each heading's line, without its terminators and leading whitespace, is
/// the level's number of `#` followed by whitespace or the end of the line.
pub proof fn law_heading_lines(s: Seq<char>)
    ensures
        forall|k: int|
            0 <= k < spec_parse(s).len() ==> heading_line_shape(
                trimmed_line(s, #[trigger] spec_parse(s)[k].2),
                spec_parse(s)[k].0,
            ),
{
    lemma_heading_lines_from(s, 0, None);
}

/// The headings with their line starts moved by `d`.
pub open spec fn shift_headings(hs: Seq<(int, Seq<char>, int)>, d: int) -> Seq<(int, Seq<char>, int)> {
    hs.map_values(|h: (int, Seq<char>, int)| (h.0, h.1, h.2 + d))
}

/// A line of `b` ends at the same place in `a + b`, moved by `a.len()`.
proof fn lemma_line_end_concat(a: Seq<char>, b: Seq<char>, j: int)
    requires
        0 <= j,
    ensures
        line_end(a + b, a.len() + j) == a.len() + line_end(b, j),
    decreases b.len() - j,
{
    if j < b.len() {
        assert((a + b)[a.len() + j] == b[j]);
        if b[j] != '\n' {
            lemma_line_end_concat(a, b, j + 1);
        }
    }
}

/// The headings of `a + b` from `a.len() + j` are those of `b` from `j`,
/// moved by `a.len()`.
proof fn lemma_headings_concat(a: Seq<char>, b: Seq<char>, j: int, fence: Option<char>)
    requires
        0 <= j,
    ensures
        headings_from(a + b, a.len() + j, fence) == shift_headings(headings_from(b, j, fence), a.len() as int),
    decreases b.len() - j,
{
    if j < b.len() {
        lemma_line_end(b, j);
        lemma_line_end_concat(a, b, j);
        let end = line_end(b, j);
        assert((a + b).subrange(a.len() + j, a.len() + end) =~= b.subrange(j, end));
        let t = trimmed_line(b, j);
        assert(trimmed_line(a + b, a.len() + j) == t);
        let next = match fence_marker(t) {
            Some(c) => next_fence(fence, c),
            None => fence,
        };
        lemma_headings_concat(a, b, end, next);
        let rest = headings_from(b, end, next);
        if fence_marker(t) is None && fence is None && heading_of_line(t) is Some {
            let h = heading_of_line(t)->0;
            assert(shift_headings(seq![(h.0, h.1, j)] + rest, a.len() as int) =~= seq![
                (h.0, h.1, a.len() + j),
            ] + shift_headings(rest, a.len() as int));
        }
    } else {
        assert(shift_headings(Seq::empty(), a.len() as int) =~= Seq::<(int, Seq<char>, int)>::empty());
    }
}

/// A line ends just past its first `\n`.
proof fn lemma_line_end_at(s: Seq<char>, i: int, k: int)
    requires
        0 <= i <= k < s.len(),
        s[k] == '\n',
        forall|j: int| i <= j < k ==> s[j] != '\n',
    ensures
        line_end(s, i) == k + 1,
    decreases k - i,
{
    if i < k {
        lemma_line_end_at(s, i + 1, k);
    }
}

/// `p` is one line, ending in its only `\n`, that is neither a heading nor
/// a fence line: trimmed, it starts with no `#` and no fence marker.
pub open spec fn plain_line(p: Seq<char>) -> bool {
    let t = trim_start_by(trim_end_by(p, newline_char()), white());
    &&& p.len() >= 1
    &&& p.last() == '\n'
    &&& forall|j: int| 0 <= j < p.len() - 1 ==> p[j] != '\n'
    &&& (t.len() == 0 || t[0] != '#')
    &&& fence_marker(t) is None
}

/// Putting a plain line in front of a text keeps its headings (level and
/// title) and moves each one's line start by the line's length.
pub proof fn law_plain_line_prefix(p: Seq<char>, t: Seq<char>)
    requires
        plain_line(p),
    ensures
        spec_parse(p + t) == shift_headings(spec_parse(t), p.len() as int),
{
    let s = p + t;
    assert(s[p.len() - 1] == '\n');
    assert forall|j: int| 0 <= j < p.len() - 1 implies s[j] != '\n' by {
        assert(s[j] == p[j]);
    }
    lemma_line_end_at(s, 0, p.len() - 1);
    assert(s.subrange(0, p.len() as int) =~= p);
    let t0 = trimmed_line(s, 0);
    assert(hash_run(t0) == 0);
    assert(headings_from(s, 0, None) == headings_from(s, p.len() as int, None));
    lemma_headings_concat(p, t, 0, None);
}

/// Trimming the end of `s` keeps a prefix of `s`, and keeps at least every
/// character up to one that is not trimmed.
proof fn lemma_trim_end_prefix(s: Seq<char>, p: spec_fn(char) -> bool, j: int)
    ensures
        trim_end_by(s, p).len() <= s.len(),
        trim_end_by(s, p) == s.subrange(0, trim_end_by(s, p).len() as int),
        0 <= j < s.len() && !p(s[j]) ==> j < trim_end_by(s, p).len(),
    decreases s.len(),
{
    if s.len() > 0 && p(s.last()) {
        lemma_trim_end_prefix(s.drop_last(), p, j);
        let t = trim_end_by(s.drop_last(), p);
        assert(s.drop_last().subrange(0, t.len() as int) =~= s.subrange(0, t.len() as int));
        if 0 <= j < s.len() && !p(s[j]) {
            assert(j < s.len() - 1);
            assert(s.drop_last()[j] == s[j]);
        }
    } else {
        assert(s.subrange(0, s.len() as int) =~= s);
    }
}

/// The trimmed first line of `m + x + "\n" + rest`, where `m` is three
/// fence characters and `x` holds no newline, starts with `m`: the line
/// ends after `x` and is a fence line of that character.
proof fn lemma_fence_line(c: char, x: Seq<char>, rest: Seq<char>)
    requires
        c == '`' || c == '~',
        forall|j: int| 0 <= j < x.len() ==> x[j] != '\n',
    ensures
        ({
            let p = seq![c, c, c] + x + seq!['\n'];
            &&& line_end(p + rest, 0) == p.len()
            &&& fence_marker(trimmed_line(p + rest, 0)) == Some(c)
        }),
{
    let p = seq![c, c, c] + x + seq!['\n'];
    let s = p + rest;
    assert forall|j: int| 0 <= j < p.len() - 1 implies s[j] != '\n' by {
        assert(s[j] == p[j]);
        if j >= 3 {
            assert(p[j] == x[j - 3]);
        }
    }
    assert(s[p.len() - 1] == '\n');
    lemma_line_end_at(s, 0, p.len() - 1);
    assert(s.subrange(0, p.len() as int) =~= p);
    lemma_trim_end_prefix(p, newline_char(), 2);
    let t = trim_end_by(p, newline_char());
    assert(t.len() >= 3);
    assert(t[0] == p[0] && t[1] == p[1] && t[2] == p[2]);
    assert(!white()(t[0]));
    assert(trim_start_by(t, white()) == t);
}

/// A line that starts with three backticks (or tildes) opens or closes a
/// fenced code block whatever follows on it (an info string such as a
/// language name): with the block `m x`, `# a`, `m` in front of `# b`, the
/// outline has `b` alone, at the start of its line.
pub proof fn law_fence_with_info_string(c: char, x: Seq<char>)
    requires
        c == '`' || c == '~',
        forall|j: int| 0 <= j < x.len() ==> x[j] != '\n',
    ensures
        spec_parse(seq![c, c, c] + x + seq!['\n', '#', ' ', 'a', '\n', c, c, c, '\n', '#', ' ', 'b', '\n'])
            == seq![(1int, seq!['b'], (x.len() + 12) as int)],
{
    let p = seq![c, c, c] + x + seq!['\n'];
    let rest = seq!['#', ' ', 'a', '\n', c, c, c, '\n', '#', ' ', 'b', '\n'];
    let s = p + rest;
    assert(seq![c, c, c] + x + seq!['\n', '#', ' ', 'a', '\n', c, c, c, '\n', '#', ' ', 'b', '\n'] =~= s);
    lemma_fence_line(c, x, rest);
    assert(headings_from(s, 0, None) == headings_from(s, p.len() as int, Some(c)));
    assert(s =~= p + rest);
    lemma_headings_concat(p, rest, 0, Some(c));
    // The rest, line by line, inside the open block.
    lemma_line_end_at(rest, 0, 3);
    let t0 = seq!['#', ' ', 'a'];
    assert(rest.subrange(0, 4) =~= t0.push('\n'));
    assert(t0.push('\n').drop_last() =~= t0);
    assert(trim_end_by(t0.push('\n'), newline_char()) == trim_end_by(t0, newline_char()));
    assert(trim_end_by(t0, newline_char()) == t0);
    assert(trim_start_by(t0, white()) == t0);
    assert(trimmed_line(rest, 0) == t0);
    assert(headings_from(rest, 0, Some(c)) == headings_from(rest, 4, Some(c)));
    lemma_line_end_at(rest, 4, 7);
    let t1 = seq![c, c, c];
    assert(rest.subrange(4, 8) =~= t1.push('\n'));
    assert(t1.push('\n').drop_last() =~= t1);
    assert(trim_end_by(t1.push('\n'), newline_char()) == trim_end_by(t1, newline_char()));
    assert(trim_end_by(t1, newline_char()) == t1);
    assert(trim_start_by(t1, white()) == t1);
    assert(trimmed_line(rest, 4) == t1);
    assert(headings_from(rest, 4, Some(c)) == headings_from(rest, 8, None));
    lemma_line_end_at(rest, 8, 11);
    let t2 = seq!['#', ' ', 'b'];
    assert(rest.subrange(8, 12) =~= t2.push('\n'));
    assert(t2.push('\n').drop_last() =~= t2);
    assert(trim_end_by(t2.push('\n'), newline_char()) == trim_end_by(t2, newline_char()));
    assert(trim_end_by(t2, newline_char()) == t2);
    assert(trim_start_by(t2, white()) == t2);
    assert(trimmed_line(rest, 8) == t2);
    assert(t2.drop_first() =~= seq![' ', 'b']);
    assert(hash_run(seq![' ', 'b']) == 0);
    assert(hash_run(t2) == 1);
    let r = t2.skip(1);
    assert(r =~= seq![' ', 'b']);
    assert(is_white(r[0]));
    let b = seq!['b'];
    assert(r.drop_first() =~= b);
    assert(trim_end_by(r, white()) == r);
    assert(trim_start_by(r, white()) == trim_start_by(b, white()));
    assert(trim_start_by(b, white()) == b);
    assert(trim(r) == b);
    assert(trim_end_by(b, hash_char()) == b);
    assert(trim_end_by(b, white()) == b);
    assert(trim(b) == b);
    assert(heading_of_line(t2) == Some((1int, b)));
    assert(headings_from(rest, 12, None) =~= Seq::<(int, Seq<char>, int)>::empty());
    assert(headings_from(rest, 8, None) == seq![(1int, b, 8int)] + headings_from(rest, 12, None));
    assert(headings_from(rest, 0, Some(c)) =~= seq![(1int, b, 8int)]);
    assert(shift_headings(seq![(1int, b, 8int)], p.len() as int) =~= seq![(1int, b, (x.len() + 12) as int)]);
}

/// Index just past the line that starts at `pos`.
fn find_line_end(cs: &Vec<char>, pos: usize) -> (e: usize)
    requires
        pos < cs@.len(),
    ensures
        e == line_end(cs@, pos as int),
{
    let mut i = pos;
    while i < cs.len()
        invariant
            pos <= i <= cs@.len(),
            line_end(cs@, i as int) == line_end(cs@, pos as int),
        decreases cs@.len() - i,
    {
        if cs[i] == '\n' {
            return i + 1;
        }
        i = i + 1;
    }
    i
}

/// Number of `#` characters at the start of `cs[lo..hi]`.
fn count_hashes(cs: &Vec<char>, lo: usize, hi: usize) -> (n: usize)
    requires
        lo <= hi <= cs@.len(),
    ensures
        n == hash_run(cs@.subrange(lo as int, hi as int)),
        lo + n <= hi,
{
    let mut i = lo;
    while i < hi && cs[i] == '#'
        invariant
            lo <= i <= hi <= cs@.len(),
            hash_run(cs@.subrange(lo as int, hi as int)) == (i - lo) + hash_run(cs@.subrange(i as int, hi as int)),
        decreases hi - i,
    {
        proof {
            assert(cs@.subrange(i as int, hi as int).drop_first() =~= cs@.subrange(i + 1, hi as int));
        }
        i = i + 1;
    }
    i - lo
}

/// The marker of a fence line `cs[a..e]`.
fn fence_of(cs: &Vec<char>, a: usize, e: usize) -> (r: Option<char>)
    requires
        a <= e <= cs@.len(),
    ensures
        r == fence_marker(cs@.subrange(a as int, e as int)),
{
    if e - a >= 3 && cs[a] == '`' && cs[a + 1] == '`' && cs[a + 2] == '`' {
        Some('`')
    } else if e - a >= 3 && cs[a] == '~' && cs[a + 1] == '~' && cs[a + 2] == '~' {
        Some('~')
    } else {
        None
    }
}

/// The heading of a trimmed line `cs[a..e]` outside code blocks.
fn heading_at(cs: &Vec<char>, a: usize, e: usize) -> (r: Option<(u8, String)>)
    requires
        a <= e <= cs@.len(),
    ensures
        match heading_of_line(cs@.subrange(a as int, e as int)) {
            None => r is None,
            Some(h) => r matches Some(x) && x.0 as int == h.0 && x.1@ == h.1,
        },
{
    let ghost t = cs@.subrange(a as int, e as int);
    let level = count_hashes(cs, a, e);
    if level == 0 || level > 6 {
        return None;
    }
    let b = a + level;
    proof {
        assert(t.skip(level as int) =~= cs@.subrange(b as int, e as int));
    }
    if b < e && !char_is_whitespace(cs[b]) {
        return None;
    }
    let e2 = trim_end_white(cs, b, e);
    let b2 = trim_start_white(cs, b, e2);
    let e3 = trim_end_char(cs, b2, e2, '#');
    let e4 = trim_end_white(cs, b2, e3);
    let b4 = trim_start_white(cs, b2, e4);
    proof {
        assert(cs@.subrange(b2 as int, e2 as int) == trim(t.skip(level as int)));
        assert((|x: char| x == '#') == hash_char());
        assert(cs@.subrange(b4 as int, e4 as int) == trim(trim_end_by(trim(t.skip(level as int)), hash_char())));
    }
    let title = if b4 == e4 {
        "(untitled)".to_owned()
    } else {
        string_of_range(cs, b4, e4)
    };
    Some((level as u8, title))
}

/// Extract ATX headings (`# …` through `###### …`), skipping fenced code blocks.
pub fn parse(text: &str) -> (r: Vec<Heading>)
    ensures
        heading_views(r@) == spec_parse(text@),
        well_formed_outline(text@, heading_views(r@), 0),
{
    proof {
        law_outline_well_formed(text@);
    }
    let cs = chars_of(text);
    let ghost s = text@;
    let mut out: Vec<Heading> = Vec::new();
    let mut pos: usize = 0;
    let mut fence: Option<char> = None;
    while pos < cs.len()
        invariant
            cs@ == s,
            pos <= s.len(),
            heading_views(out@) + headings_from(s, pos as int, fence) == headings_from(s, 0, None),
        decreases s.len() - pos,
    {
        proof {
            lemma_line_end(s, pos as int);
        }
        let end = find_line_end(&cs, pos);
        let e1 = trim_end_newlines(&cs, pos, end);
        let a = trim_start_white(&cs, pos, e1);
        proof {
            assert((|x: char| x == '\n' || x == '\r') == newline_char());
            assert(cs@.subrange(a as int, e1 as int) == trimmed_line(s, pos as int));
        }
        match fence_of(&cs, a, e1) {
            Some(c) => {
                fence = match fence {
                    None => Some(c),
                    Some(open) => if open == c {
                        None
                    } else {
                        fence
                    },
                };
            },
            None => {
                if fence.is_none() {
                    match heading_at(&cs, a, e1) {
                        Some((level, title)) => {
                            let h = Heading { level, text: title, char_start: pos };
                            proof {
                                assert(heading_views(out@.push(h)) =~= heading_views(out@).push(h@));
                                let rest = headings_from(s, end as int, fence);
                                assert(heading_views(out@).push(h@) + rest =~= heading_views(out@) + (seq![h@] + rest));
                            }
                            out.push(h);
                        },
                        None => {},
                    }
                }
            },
        }
        pos = end;
    }
    proof {
        assert(heading_views(out@) + headings_from(s, pos as int, fence) =~= heading_views(out@));
    }
    out
}

/// Index of the heading the cursor currently sits in, if any: the last one
/// whose line starts at or before the cursor.
pub fn active_index(headings: &[Heading], cursor: usize) -> (r: Option<usize>)
    ensures
        match r {
            None => forall|k: int| 0 <= k < headings@.len() ==> #[trigger] headings@[k].char_start > cursor,
            Some(i) => {
                &&& i < headings@.len()
                &&& headings@[i as int].char_start <= cursor
                &&& forall|k: int| i < k < headings@.len() ==> #[trigger] headings@[k].char_start > cursor
            },
        },
{
    let mut k = headings.len();
    while k > 0
        invariant
            k <= headings@.len(),
            forall|j: int| k <= j < headings@.len() ==> #[trigger] headings@[j].char_start > cursor,
        decreases k,
    {
        if headings[k - 1].char_start <= cursor {
            return Some(k - 1);
        }
        k = k - 1;
    }
    None
}

} // verus!
