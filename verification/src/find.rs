//! Find & replace over the editor buffer.
//!
//! Matches are character ranges; they are turned into byte offsets only when
//! the text is spliced.
use vstd::prelude::*;
use crate::strs::{concat, decimal, decimal_string, lemma_char_start_index, replace_range};
use crate::text_util::{char_to_byte, chars_of};

verus! {

/// The first character of `c.to_lowercase()` (the value of `fold_lower`).
pub uninterp spec fn lowercase_first(c: char) -> char;

/// Calls `char::to_lowercase` and keeps the first character of the mapping
/// (or `c` itself if the mapping were empty). What the mapping is outside
/// ASCII is Unicode's table and stays a name; for ASCII, `to_lowercase`
/// maps `A`..`Z` to `a`..`z` and leaves every other character alone.
#[verifier::external_body]
fn fold_lower(c: char) -> (r: char)
    ensures
        r == lowercase_first(c),
        (c as u32) < 0x80 ==> r == (if 'A' <= c <= 'Z' { ((c as u32) + 32) as char } else { c }),
{
    c.to_lowercase().next().unwrap_or(c)
}

/// The character compared in place of `c`.
pub open spec fn fold_char(c: char, case_sensitive: bool) -> char {
    if case_sensitive {
        c
    } else {
        lowercase_first(c)
    }
}

/// `s` with every character folded.
pub open spec fn folded(s: Seq<char>, case_sensitive: bool) -> Seq<char> {
    s.map_values(|c: char| fold_char(c, case_sensitive))
}

/// Greedy left-to-right non-overlapping occurrences of `needle` in `hay`,
/// scanning from index `i`.
pub open spec fn matches_from(hay: Seq<char>, needle: Seq<char>, i: int) -> Seq<(int, int)>
    decreases hay.len() - i,
{
    if needle.len() == 0 || i < 0 || i + needle.len() > hay.len() {
        Seq::empty()
    } else if hay.subrange(i, i + needle.len()) == needle {
        seq![(i, i + needle.len())] + matches_from(hay, needle, i + needle.len())
    } else {
        matches_from(hay, needle, i + 1)
    }
}

/// The character ranges `find_matches` reports.
pub open spec fn spec_find_matches(text: Seq<char>, query: Seq<char>, case_sensitive: bool) -> Seq<(int, int)> {
    matches_from(folded(text, case_sensitive), folded(query, case_sensitive), 0)
}

/// Pairs of `usize` read as integers.
pub open spec fn as_ints(v: Seq<(usize, usize)>) -> Seq<(int, int)> {
    v.map_values(|p: (usize, usize)| (p.0 as int, p.1 as int))
}

/// Every range of `ms` is an occurrence of `needle` in `hay`, and the ranges
/// are increasing and disjoint, starting at or after `from`.
pub open spec fn proper_matches(hay: Seq<char>, needle: Seq<char>, ms: Seq<(int, int)>, from: int) -> bool {
    &&& forall|k: int|
        0 <= k < ms.len() ==> {
            &&& from <= #[trigger] ms[k].0
            &&& ms[k].1 == ms[k].0 + needle.len()
            &&& ms[k].1 <= hay.len()
            &&& hay.subrange(ms[k].0, ms[k].1) == needle
        }
    &&& forall|k: int| 0 <= k < ms.len() - 1 ==> #[trigger] ms[k].1 <= ms[k + 1].0
}

/// The scan only reports genuine, ordered, disjoint occurrences.
pub proof fn lemma_matches_proper(hay: Seq<char>, needle: Seq<char>, i: int)
    requires
        0 <= i,
    ensures
        proper_matches(hay, needle, matches_from(hay, needle, i), i),
    decreases hay.len() - i,
{
    let n = needle.len();
    if n == 0 || i + n > hay.len() {
    } else if hay.subrange(i, i + n) == needle {
        lemma_matches_proper(hay, needle, i + n);
        let rest = matches_from(hay, needle, i + n);
        let ms = seq![(i, i + n)] + rest;
        assert forall|k: int| 0 <= k < ms.len() - 1 implies #[trigger] ms[k].1 <= ms[k + 1].0 by {
            if k > 0 {
                assert(ms[k] == rest[k - 1]);
                assert(ms[k + 1] == rest[k]);
            } else {
                assert(ms[1] == rest[0]);
            }
        }
        assert forall|k: int| 0 <= k < ms.len() implies {
            &&& i <= #[trigger] ms[k].0
            &&& ms[k].1 == ms[k].0 + n
            &&& ms[k].1 <= hay.len()
            &&& hay.subrange(ms[k].0, ms[k].1) == needle
        } by {
            if k > 0 {
                assert(ms[k] == rest[k - 1]);
            }
        }
    } else {
        lemma_matches_proper(hay, needle, i + 1);
    }
}

/// The character compared in place of `c`: `c` itself when the search is
/// case sensitive, else the first character of its lowercase mapping
/// (for ASCII, `A`..`Z` become `a`..`z` and the rest stay).
pub fn fold(c: char, case_sensitive: bool) -> (r: char)
    ensures
        r == fold_char(c, case_sensitive),
        !case_sensitive && (c as u32) < 0x80 ==> r == (if 'A' <= c <= 'Z' { ((c as u32) + 32) as char } else { c }),
        case_sensitive ==> r == c,
{
    if case_sensitive {
        c
    } else {
        fold_lower(c)
    }
}

/// Folds every character of `cs`.
fn fold_all(cs: &Vec<char>, case_sensitive: bool) -> (r: Vec<char>)
    ensures
        r@ == folded(cs@, case_sensitive),
{
    let mut out: Vec<char> = Vec::new();
    let mut i: usize = 0;
    while i < cs.len()
        invariant
            i <= cs@.len(),
            out@ == folded(cs@.take(i as int), case_sensitive),
        decreases cs@.len() - i,
    {
        let c = cs[i];
        let f = fold(c, case_sensitive);
        proof {
            assert(folded(cs@.take(i + 1), case_sensitive) =~= folded(cs@.take(i as int), case_sensitive).push(f));
        }
        out.push(f);
        i = i + 1;
    }
    proof {
        assert(cs@.take(cs@.len() as int) =~= cs@);
    }
    out
}

/// Whether `needle` occurs in `hay` at index `i`.
fn occurs_at(hay: &Vec<char>, needle: &Vec<char>, i: usize) -> (r: bool)
    requires
        i + needle@.len() <= hay@.len(),
    ensures
        r == (hay@.subrange(i as int, i + needle@.len()) == needle@),
{
    let hl = hay.len();
    let mut j: usize = 0;
    while j < needle.len()
        invariant
            hl == hay@.len(),
            i + needle@.len() <= hay@.len(),
            j <= needle@.len(),
            forall|k: int| 0 <= k < j ==> hay@[i + k] == needle@[k],
        decreases needle@.len() - j,
    {
        if hay[i + j] != needle[j] {
            proof {
                assert(hay@.subrange(i as int, i + needle@.len())[j as int] != needle@[j as int]);
            }
            return false;
        }
        j = j + 1;
    }
    proof {
        assert(hay@.subrange(i as int, i + needle@.len()) =~= needle@);
    }
    true
}

/// Non-overlapping character ranges of `query` within `text`.
///
/// Case-insensitive comparison folds each `char` individually rather than
/// lowercasing the whole string, so the 1:1 char mapping the returned indices
/// rely on is preserved.
pub fn find_matches(text: &str, query: &str, case_sensitive: bool) -> (r: Vec<(usize, usize)>)
    ensures
        as_ints(r@) == spec_find_matches(text@, query@, case_sensitive),
        proper_matches(folded(text@, case_sensitive), folded(query@, case_sensitive), as_ints(r@), 0),
{
    proof {
        lemma_matches_proper(folded(text@, case_sensitive), folded(query@, case_sensitive), 0);
    }
    let ghost hay_s = folded(text@, case_sensitive);
    let ghost needle_s = folded(query@, case_sensitive);
    let qchars = chars_of(query);
    if qchars.len() == 0 {
        proof {
            assert(as_ints(Seq::<(usize, usize)>::empty()) =~= Seq::<(int, int)>::empty());
        }
        return Vec::new();
    }
    let tchars = chars_of(text);
    let hay = fold_all(&tchars, case_sensitive);
    let needle = fold_all(&qchars, case_sensitive);
    if needle.len() > hay.len() {
        proof {
            assert(as_ints(Seq::<(usize, usize)>::empty()) =~= Seq::<(int, int)>::empty());
        }
        return Vec::new();
    }
    let n = needle.len();
    let mut out: Vec<(usize, usize)> = Vec::new();
    let mut i: usize = 0;
    while i <= hay.len() - n
        invariant
            hay@ == hay_s,
            needle@ == needle_s,
            n == needle@.len(),
            0 < n <= hay@.len(),
            i <= hay@.len(),
            as_ints(out@) + matches_from(hay_s, needle_s, i as int) == matches_from(hay_s, needle_s, 0),
        decreases hay@.len() - i,
    {
        if occurs_at(&hay, &needle, i) {
            proof {
                assert(as_ints(out@.push((i, (i + n) as usize))) =~= as_ints(out@).push((i as int, i + n)));
                assert(as_ints(out@).push((i as int, i + n)) + matches_from(hay_s, needle_s, i + n)
                    =~= as_ints(out@) + matches_from(hay_s, needle_s, i as int));
            }
            out.push((i, i + n));
            i = i + n;
        } else {
            i = i + 1;
        }
    }
    proof {
        assert(as_ints(out@) + matches_from(hay_s, needle_s, i as int) =~= as_ints(out@));
    }
    out
}

/// What the caller must do after showing the bar.
pub struct FindOutcome {
    /// Character range to select and scroll into view in the editor.
    pub select: Option<(usize, usize)>,
    /// The buffer was modified (caller must bump its text revision / dirty flag).
    pub text_changed: bool,
}

impl FindOutcome {
    /// Nothing to select, nothing changed.
    pub fn none() -> (r: FindOutcome)
        ensures
            r.select is None,
            !r.text_changed,
    {
        FindOutcome { select: None, text_changed: false }
    }
}

impl Default for FindOutcome {
    fn default() -> (r: FindOutcome)
        ensures
            r.select is None,
            !r.text_changed,
    {
        FindOutcome::none()
    }
}

/// Find & replace state: the query, the replacement, the cached matches and
/// the current match.
pub struct FindReplace {
    pub visible: bool,
    pub query: String,
    pub replace_with: String,
    pub case_sensitive: bool,
    pub focus_query: bool,
    pub matches: Vec<(usize, usize)>,
    pub current: Option<usize>,
    /// (query, case_sensitive, text revision) the cached `matches` were computed from.
    pub cache_key: Option<(String, bool, u64)>,
}

impl Default for FindReplace {
    fn default() -> (r: FindReplace)
        ensures
            !r.visible,
            r.query@ == Seq::<char>::empty(),
            r.replace_with@ == Seq::<char>::empty(),
            !r.case_sensitive,
            !r.focus_query,
            r.matches@.len() == 0,
            r.current is None,
            r.cache_key is None,
            r.wf(),
    {
        FindReplace::new()
    }
}

/// The match index a step moves to, wrapping around; `None` when there is
/// no match.
pub open spec fn step_index(current: Option<usize>, len: nat, forward: bool) -> Option<nat> {
    if len == 0 {
        None
    } else {
        match current {
            None => if forward { Some(0nat) } else { Some((len - 1) as nat) },
            Some(i) => if forward {
                if i + 1 < len { Some((i + 1) as nat) } else { Some(0nat) }
            } else {
                if i == 0 { Some((len - 1) as nat) } else { Some((i - 1) as nat) }
            },
        }
    }
}

/// The current match after the matches were recomputed as `len` ranges:
/// kept if it still exists, else the last match, or none when there is none.
pub open spec fn clamp_current(current: Option<usize>, len: nat) -> Option<usize> {
    match current {
        Some(i) => if i < len {
            Some(i)
        } else if len == 0 {
            None
        } else {
            Some((len - 1) as usize)
        },
        None => None,
    }
}

/// What `step_external` does from `old` to `new`, returning `r`: the
/// matches are those `refresh` leaves (kept on a cache hit, recomputed
/// otherwise), and the step moves from the current match `refresh` leaves,
/// wrapping around; the query, replacement, case flag and focus request stay.
pub open spec fn stepped_external(
    old: FindReplace,
    new: FindReplace,
    text: Seq<char>,
    text_rev: u64,
    forward: bool,
    r: Option<(usize, usize)>,
) -> bool {
    let hit = old.cache_hit(text_rev);
    let mid = new.matches@;
    let cur = clamp_current(old.current, mid.len());
    &&& hit ==> mid == old.matches@ && new.cache_key == old.cache_key
    &&& !hit ==> as_ints(mid) == spec_find_matches(text, old.query@, old.case_sensitive)
    &&& !hit ==> (new.cache_key matches Some(k) && k.0@ == old.query@ && k.1 == old.case_sensitive && k.2
        == text_rev)
    &&& match step_index(cur, mid.len(), forward) {
        None => r is None && new.current == cur,
        Some(k) => new.current == Some(k as usize) && r == Some(mid[k as int]),
    }
    &&& (r is None <==> mid.len() == 0)
    &&& new.focus_query == old.focus_query
    &&& new.query == old.query
    &&& new.replace_with == old.replace_with
    &&& new.case_sensitive == old.case_sensitive
}

/// `s` with the characters in `lo..hi` (clamped to the text) replaced by `r`.
pub open spec fn splice_chars(s: Seq<char>, lo: int, hi: int, r: Seq<char>) -> Seq<char> {
    let a = if lo < s.len() { lo } else { s.len() as int };
    let b = if hi < s.len() { hi } else { s.len() as int };
    s.subrange(0, a) + r + s.subrange(b, s.len() as int)
}

/// Splicing every range of `ms` from the last to the first.
pub open spec fn splice_all(s: Seq<char>, ms: Seq<(int, int)>, r: Seq<char>) -> Seq<char>
    decreases ms.len(),
{
    if ms.len() == 0 {
        s
    } else {
        splice_all(splice_chars(s, ms.last().0, ms.last().1, r), ms.drop_last(), r)
    }
}

/// The text with every occurrence in `ms` replaced, written front to back.
pub open spec fn replaced_all(s: Seq<char>, ms: Seq<(int, int)>, r: Seq<char>) -> Seq<char>
    decreases ms.len(),
{
    if ms.len() == 0 {
        s
    } else {
        replaced_all(s.subrange(0, ms.last().0), ms.drop_last(), r) + r + s.subrange(ms.last().1, s.len() as int)
    }
}

/// Splices the character range `lo..hi` (clamped) of `text` with `with`.
fn splice(text: &mut String, lo: usize, hi: usize, with: &str)
    requires
        lo <= hi,
    ensures
        final(text)@ == splice_chars(old(text)@, lo as int, hi as int, with@),
{
    let ghost s = text@;
    let lo_b = char_to_byte(text, lo);
    let hi_b = char_to_byte(text, hi);
    proof {
        let a = if lo < s.len() { lo as int } else { s.len() as int };
        let b = if hi < s.len() { hi as int } else { s.len() as int };
        assert(s.take(s.len() as int) =~= s);
        assert(lo_b == crate::text_util::byte_offset(s, a));
        assert(hi_b == crate::text_util::byte_offset(s, b));
        lemma_char_start_index(s, a);
        lemma_char_start_index(s, b);
        if a < b {
            crate::text_util::lemma_byte_offset_strict(s, a, b);
        }
    }
    replace_range(text, lo_b, hi_b, with);
}

impl FindReplace {
    /// Only a current match that exists is selected.
    pub open spec fn wf(&self) -> bool {
        &&& self.current matches Some(i) ==> i < self.matches@.len()
        &&& forall|k: int| 0 <= k < self.matches@.len() ==> #[trigger] self.matches@[k].0 <= self.matches@[k].1
    }

    /// A closed bar with empty fields and no cached matches.
    pub fn new() -> (r: FindReplace)
        ensures
            !r.visible,
            r.query@ == Seq::<char>::empty(),
            r.replace_with@ == Seq::<char>::empty(),
            !r.case_sensitive,
            !r.focus_query,
            r.matches@.len() == 0,
            r.current is None,
            r.cache_key is None,
            r.wf(),
    {
        FindReplace {
            visible: false,
            query: String::new(),
            replace_with: String::new(),
            case_sensitive: false,
            focus_query: false,
            matches: Vec::new(),
            current: None,
            cache_key: None,
        }
    }

    /// Open the bar and focus the query field.
    pub fn open(&mut self)
        ensures
            final(self).visible,
            final(self).focus_query,
            final(self).query == old(self).query,
            final(self).replace_with == old(self).replace_with,
            final(self).case_sensitive == old(self).case_sensitive,
            final(self).matches == old(self).matches,
            final(self).current == old(self).current,
            final(self).cache_key == old(self).cache_key,
    {
        self.visible = true;
        self.focus_query = true;
    }

    /// Close the bar and forget the current match.
    pub fn close(&mut self)
        ensures
            !final(self).visible,
            final(self).current is None,
            final(self).focus_query == old(self).focus_query,
            final(self).query == old(self).query,
            final(self).replace_with == old(self).replace_with,
            final(self).case_sensitive == old(self).case_sensitive,
            final(self).matches == old(self).matches,
            final(self).cache_key == old(self).cache_key,
    {
        self.visible = false;
        self.current = None;
    }

    /// Hands out a pending focus request once.
    pub fn take_focus_request(&mut self) -> (r: bool)
        ensures
            r == old(self).focus_query,
            !final(self).focus_query,
            final(self).visible == old(self).visible,
            final(self).query == old(self).query,
            final(self).replace_with == old(self).replace_with,
            final(self).case_sensitive == old(self).case_sensitive,
            final(self).matches == old(self).matches,
            final(self).current == old(self).current,
            final(self).cache_key == old(self).cache_key,
    {
        let r = self.focus_query;
        self.focus_query = false;
        r
    }

    /// The cached matches were computed for this query, case flag and revision.
    pub open spec fn cache_hit(&self, text_rev: u64) -> bool {
        self.cache_key matches Some(k) && k.0@ == self.query@ && k.1 == self.case_sensitive && k.2 == text_rev
    }

    /// Recompute matches when the query, the case flag or the buffer changed.
    pub fn refresh(&mut self, text: &str, text_rev: u64)
        requires
            old(self).wf(),
        ensures
            final(self).wf(),
            old(self).cache_hit(text_rev) ==> *final(self) == *old(self),
            !(old(self).cache_key matches Some(k) && k.0@ == old(self).query@ && k.1 == old(self).case_sensitive
                && k.2 == text_rev) ==> as_ints(final(self).matches@) == spec_find_matches(
                text@,
                final(self).query@,
                final(self).case_sensitive,
            ),
            final(self).cache_key matches Some(k) && k.0@ == final(self).query@ && k.1
                == final(self).case_sensitive && k.2 == text_rev,
            !old(self).cache_hit(text_rev) ==> {
                &&& as_ints(final(self).matches@) == spec_find_matches(text@, old(self).query@, old(self).case_sensitive)
                &&& final(self).current == clamp_current(old(self).current, final(self).matches@.len())
                &&& final(self).cache_key matches Some(k) && k.0@ == old(self).query@ && k.1
                    == old(self).case_sensitive && k.2 == text_rev
                &&& final(self).visible == old(self).visible
                &&& final(self).focus_query == old(self).focus_query
                &&& final(self).query == old(self).query
                &&& final(self).replace_with == old(self).replace_with
                &&& final(self).case_sensitive == old(self).case_sensitive
            },
    {
        let hit = match &self.cache_key {
            Some(k) => k.0 == self.query && k.1 == self.case_sensitive && k.2 == text_rev,
            None => false,
        };
        if hit {
            return;
        }
        self.matches = find_matches(text, self.query.as_str(), self.case_sensitive);
        proof {
            let ms = self.matches@;
            assert forall|k: int| 0 <= k < ms.len() implies #[trigger] ms[k].0 <= ms[k].1 by {
                assert(as_ints(ms)[k] == (ms[k].0 as int, ms[k].1 as int));
            }
        }
        match self.current {
            Some(i) => {
                if i >= self.matches.len() {
                    self.current = if self.matches.len() == 0 {
                        None
                    } else {
                        Some(self.matches.len() - 1)
                    };
                }
            },
            None => {},
        }
        self.cache_key = Some((self.query.clone(), self.case_sensitive, text_rev));
    }

    /// Advance to the next/previous match, wrapping around.
    pub fn step(&mut self, forward: bool) -> (r: Option<(usize, usize)>)
        requires
            old(self).wf(),
        ensures
            final(self).wf(),
            match step_index(old(self).current, old(self).matches@.len(), forward) {
                None => r is None && final(self).current == old(self).current,
                Some(k) => final(self).current == Some(k as usize) && r == Some(old(self).matches@[k as int]),
            },
            r matches Some(p) ==> final(self).current matches Some(k) && k < old(self).matches@.len() && p
                == old(self).matches@[k as int],
            r is None <==> old(self).matches@.len() == 0,
            final(self).visible == old(self).visible,
            final(self).focus_query == old(self).focus_query,
            final(self).query == old(self).query,
            final(self).replace_with == old(self).replace_with,
            final(self).case_sensitive == old(self).case_sensitive,
            final(self).matches == old(self).matches,
            final(self).cache_key == old(self).cache_key,
    {
        let len = self.matches.len();
        if len == 0 {
            return None;
        }
        let next = match self.current {
            None => {
                if forward {
                    0
                } else {
                    len - 1
                }
            },
            Some(i) => {
                if forward {
                    proof {
                        if i + 1 < len {
                            vstd::arithmetic::div_mod::lemma_small_mod((i + 1) as nat, len as nat);
                        } else {
                            vstd::arithmetic::div_mod::lemma_mod_self_0(len as int);
                        }
                    }
                    (i + 1) % len
                } else {
                    if i == 0 {
                        len - 1
                    } else {
                        i - 1
                    }
                }
            },
        };
        self.current = Some(next);
        Some(self.matches[next])
    }

    /// Jump to the next/previous match from outside the bar (keyboard shortcut):
    /// the matches are brought up to date as `refresh` does, then the bar
    /// steps as `step` does, from the current match that `refresh` leaves.
    pub fn step_external(&mut self, text: &str, text_rev: u64, forward: bool) -> (r: Option<(usize, usize)>)
        requires
            old(self).wf(),
        ensures
            final(self).wf(),
            stepped_external(*old(self), *final(self), text@, text_rev, forward, r),
            final(self).visible == old(self).visible,
    {
        self.refresh(text, text_rev);
        let r = self.step(forward);
        r
    }

    /// Escape: closes the bar when it is open, and does nothing otherwise.
    pub fn escape(&mut self)
        ensures
            old(self).visible ==> !final(self).visible && final(self).current is None && final(self).focus_query
                == old(self).focus_query && final(self).query == old(self).query && final(self).replace_with
                == old(self).replace_with && final(self).case_sensitive == old(self).case_sensitive
                && final(self).matches == old(self).matches && final(self).cache_key == old(self).cache_key,
            !old(self).visible ==> *final(self) == *old(self),
    {
        if self.visible {
            self.close();
        }
    }

    /// Next/previous match from a shortcut: the bar opens and steps as
    /// `step_external` does.
    pub fn shortcut_step(&mut self, text: &str, text_rev: u64, forward: bool) -> (r: Option<(usize, usize)>)
        requires
            old(self).wf(),
        ensures
            final(self).wf(),
            final(self).visible,
            stepped_external(*old(self), *final(self), text@, text_rev, forward, r),
    {
        self.visible = true;
        self.step_external(text, text_rev, forward)
    }

    /// Replace the current match with the replacement text.
    pub fn replace_current(&mut self, text: &mut String) -> (r: bool)
        requires
            old(self).wf(),
        ensures
            final(self).wf(),
            r == (old(self).current matches Some(i) && i < old(self).matches@.len()),
            r ==> ({
                let m = old(self).matches@[old(self).current->0 as int];
                &&& final(text)@ == splice_chars(old(text)@, m.0 as int, m.1 as int, old(self).replace_with@)
                &&& final(self).cache_key is None
            }),
            !r ==> final(text)@ == old(text)@ && final(self).cache_key == old(self).cache_key,
            final(self).current == old(self).current,
            final(self).matches == old(self).matches,
            final(self).visible == old(self).visible,
            final(self).focus_query == old(self).focus_query,
            final(self).query == old(self).query,
            final(self).replace_with == old(self).replace_with,
            final(self).case_sensitive == old(self).case_sensitive,
    {
        let i = match self.current {
            Some(i) => i,
            None => {
                return false;
            },
        };
        if i >= self.matches.len() {
            return false;
        }
        let (lo, hi) = self.matches[i];
        splice(text, lo, hi, self.replace_with.as_str());
        // Keep `current` where it is: after the splice that index refers to the
        // following match, so Replace → Replace walks forward naturally.
        self.cache_key = None;
        true
    }

    /// The match counter of the bar: "current / count", "- / count" with no
    /// current match, nothing for an empty query, and "0 件" otherwise.
    pub fn match_label(&self) -> (r: String)
        requires
            self.wf(),
        ensures
            r@ == (if self.matches@.len() > 0 {
                match self.current {
                    Some(i) => decimal((i + 1) as nat) + " / "@ + decimal(self.matches@.len()),
                    None => "- / "@ + decimal(self.matches@.len()),
                }
            } else if self.query@.len() == 0 {
                ""@
            } else {
                "0 件"@
            }),
    {
        let count = self.matches.len();
        if count > 0 {
            match self.current {
                Some(i) => {
                    let a = concat(decimal_string((i + 1) as u64).as_str(), " / ");
                    concat(a.as_str(), decimal_string(count as u64).as_str())
                },
                None => concat("- / ", decimal_string(count as u64).as_str()),
            }
        } else if self.query.as_str().is_empty() {
            "".to_owned()
        } else {
            "0 件".to_owned()
        }
    }

    /// Replace every match, splicing back to front so earlier ranges stay
    /// valid. Returns the number of replaced matches.
    pub fn replace_all(&mut self, text: &mut String) -> (r: usize)
        requires
            old(self).wf(),
        ensures
            final(self).wf(),
            r == old(self).matches@.len(),
            final(text)@ == splice_all(old(text)@, as_ints(old(self).matches@), old(self).replace_with@),
            r > 0 ==> final(self).current is None && final(self).cache_key is None,
            r == 0 ==> final(self).current == old(self).current && final(self).cache_key
                == old(self).cache_key,
            final(self).matches == old(self).matches,
            final(self).visible == old(self).visible,
            final(self).focus_query == old(self).focus_query,
            final(self).query == old(self).query,
            final(self).replace_with == old(self).replace_with,
            final(self).case_sensitive == old(self).case_sensitive,
    {
        if self.matches.len() == 0 {
            return 0;
        }
        let ghost s0 = text@;
        let ghost ms = as_ints(self.matches@);
        let ghost rw = self.replace_with@;
        let mut k: usize = self.matches.len();
        proof {
            assert(ms.take(k as int) =~= ms);
        }
        while k > 0
            invariant
                k <= self.matches@.len(),
                ms == as_ints(self.matches@),
                rw == self.replace_with@,
                self.wf(),
                splice_all(text@, ms.take(k as int), rw) == splice_all(s0, ms, rw),
            decreases k,
        {
            let (lo, hi) = self.matches[k - 1];
            proof {
                assert(self.matches@[k - 1].0 <= self.matches@[k - 1].1);
                assert(ms.take(k as int).last() == (lo as int, hi as int));
                assert(ms.take(k as int).drop_last() =~= ms.take(k - 1));
            }
            splice(text, lo, hi, self.replace_with.as_str());
            k = k - 1;
        }
        proof {
            assert(ms.take(0) =~= Seq::<(int, int)>::empty());
        }
        let n = self.matches.len();
        self.current = None;
        self.cache_key = None;
        n
    }
}

/// The cached matches count as current only when the whole key agrees:
/// the query, the case flag and the text revision they were computed for.
/// A new query or case flag at the same revision is no cache hit.
pub proof fn law_cache_hit_needs_whole_key(f: FindReplace, text_rev: u64)
    ensures
        f.cache_hit(text_rev) <==> (f.cache_key matches Some(k) && k.0@ == f.query@ && k.1 == f.case_sensitive
            && k.2 == text_rev),
        (f.cache_key matches Some(k) && (k.0@ != f.query@ || k.1 != f.case_sensitive)) ==> !f.cache_hit(text_rev),
{
}

/// Stepping forward and then back returns to the same match, and the
/// other way round.
pub proof fn law_step_round_trip(i: usize, len: nat)
    requires
        i < len <= usize::MAX,
    ensures
        step_index(Some(step_index(Some(i), len, true)->0 as usize), len, false) == Some(i as nat),
        step_index(Some(step_index(Some(i), len, false)->0 as usize), len, true) == Some(i as nat),
{
}

/// The match index one step from `i` among `len` matches, wrapping around.
pub open spec fn next_index(i: nat, len: nat, forward: bool) -> nat {
    if forward {
        if i + 1 < len { i + 1 } else { 0 }
    } else {
        if i == 0 { (len - 1) as nat } else { (i - 1) as nat }
    }
}

/// The match index `n` steps from `i` in one direction.
pub open spec fn steps(i: nat, len: nat, forward: bool, n: nat) -> nat
    decreases n,
{
    if n == 0 {
        i
    } else {
        steps(next_index(i, len, forward), len, forward, (n - 1) as nat)
    }
}

/// Steps add up.
proof fn lemma_steps_add(i: nat, len: nat, forward: bool, a: nat, b: nat)
    ensures
        steps(i, len, forward, a + b) == steps(steps(i, len, forward, a), len, forward, b),
    decreases a,
{
    if a > 0 {
        lemma_steps_add(next_index(i, len, forward), len, forward, (a - 1) as nat, b);
        assert((a + b - 1) as nat == (a - 1) as nat + b);
    }
}

/// Forward steps that do not reach the end move by one each.
proof fn lemma_steps_forward(i: nat, len: nat, n: nat)
    requires
        i + n < len,
    ensures
        steps(i, len, true, n) == i + n,
    decreases n,
{
    if n > 0 {
        lemma_steps_forward(i + 1, len, (n - 1) as nat);
    }
}

/// Backward steps that do not pass the start move by one each.
proof fn lemma_steps_backward(i: nat, len: nat, n: nat)
    requires
        n <= i,
    ensures
        steps(i, len, false, n) == i - n,
    decreases n,
{
    if n > 0 {
        lemma_steps_backward((i - 1) as nat, len, (n - 1) as nat);
    }
}

/// Stepping as many times as there are matches, in either direction,
/// comes back to the same match; each step is the one `step` takes.
pub proof fn law_steps_cycle(i: usize, len: nat)
    requires
        i < len <= usize::MAX,
    ensures
        forall|k: usize, forward: bool|
            k < len ==> #[trigger] step_index(Some(k), len, forward) == Some(next_index(k as nat, len, forward)),
        steps(i as nat, len, true, len) == i,
        steps(i as nat, len, false, len) == i,
{
    let n = (len - 1 - i) as nat;
    lemma_steps_add(i as nat, len, true, n, (i + 1) as nat);
    lemma_steps_forward(i as nat, len, n);
    assert(next_index((len - 1) as nat, len, true) == 0);
    lemma_steps_forward(0, len, i as nat);
    lemma_steps_add(i as nat, len, false, i as nat, (len - i) as nat);
    lemma_steps_backward(i as nat, len, i as nat);
    lemma_steps_backward((len - 1) as nat, len, (len - i - 1) as nat);
}

/// Ranges within `0..bound`, each with its start before its end, in
/// increasing order and disjoint.
pub open spec fn ordered_ranges(ms: Seq<(int, int)>, bound: int) -> bool {
    &&& forall|k: int| 0 <= k < ms.len() ==> 0 <= #[trigger] ms[k].0 <= ms[k].1 <= bound
    &&& forall|k: int| 0 <= k < ms.len() - 1 ==> #[trigger] ms[k].1 <= ms[k + 1].0
}

/// Splicing ranges that lie in `a` leaves a following `b` untouched.
proof fn lemma_splice_all_suffix(a: Seq<char>, b: Seq<char>, ms: Seq<(int, int)>, r: Seq<char>)
    requires
        ordered_ranges(ms, a.len() as int),
    ensures
        splice_all(a + b, ms, r) == splice_all(a, ms, r) + b,
    decreases ms.len(),
{
    if ms.len() > 0 {
        let (lo, hi) = ms.last();
        assert(0 <= ms[ms.len() - 1].0 <= ms[ms.len() - 1].1 <= a.len());
        let a2 = splice_chars(a, lo, hi, r);
        assert(splice_chars(a + b, lo, hi, r) =~= a2 + b);
        let rest = ms.drop_last();
        assert forall|k: int| 0 <= k < rest.len() implies 0 <= #[trigger] rest[k].0 <= rest[k].1 <= a2.len() by {
            assert(rest[k] == ms[k]);
            if k < rest.len() - 1 {
                assert(ms[k].1 <= ms[k + 1].0);
                assert(rest[k + 1] == ms[k + 1]);
            }
            lemma_ordered_before_last(ms, a.len() as int, k);
        }
        assert forall|k: int| 0 <= k < rest.len() - 1 implies #[trigger] rest[k].1 <= rest[k + 1].0 by {
            assert(rest[k] == ms[k]);
            assert(rest[k + 1] == ms[k + 1]);
        }
        lemma_splice_all_suffix(a2, b, rest, r);
    }
}

/// In ordered ranges, every range ends before the last one starts.
proof fn lemma_ordered_before_last(ms: Seq<(int, int)>, bound: int, k: int)
    requires
        ordered_ranges(ms, bound),
        0 <= k < ms.len() - 1,
    ensures
        ms[k].1 <= ms.last().0,
    decreases ms.len() - 1 - k,
{
    assert(ms[k].1 <= ms[k + 1].0);
    if k + 1 < ms.len() - 1 {
        lemma_ordered_before_last(ms, bound, k + 1);
    }
}

/// Back-to-front splicing of ordered ranges replaces each of them.
pub proof fn lemma_splice_all_replaced(s: Seq<char>, ms: Seq<(int, int)>, r: Seq<char>)
    requires
        ordered_ranges(ms, s.len() as int),
    ensures
        splice_all(s, ms, r) == replaced_all(s, ms, r),
    decreases ms.len(),
{
    if ms.len() > 0 {
        let (lo, hi) = ms.last();
        assert(0 <= ms[ms.len() - 1].0 <= ms[ms.len() - 1].1 <= s.len());
        let rest = ms.drop_last();
        let head = s.subrange(0, lo);
        let tail = r + s.subrange(hi, s.len() as int);
        assert(splice_chars(s, lo, hi, r) =~= head + tail);
        assert forall|k: int| 0 <= k < rest.len() implies 0 <= #[trigger] rest[k].0 <= rest[k].1 <= head.len() by {
            assert(rest[k] == ms[k]);
            lemma_ordered_before_last(ms, s.len() as int, k);
        }
        assert forall|k: int| 0 <= k < rest.len() - 1 implies #[trigger] rest[k].1 <= rest[k + 1].0 by {
            assert(rest[k] == ms[k]);
            assert(rest[k + 1] == ms[k + 1]);
        }
        lemma_splice_all_suffix(head, tail, rest, r);
        lemma_splice_all_replaced(head, rest, r);
        assert(replaced_all(s, ms, r) == replaced_all(head, rest, r) + r + s.subrange(hi, s.len() as int));
        assert(splice_all(head, rest, r) + tail =~= replaced_all(head, rest, r) + r + s.subrange(hi, s.len() as int));
    }
}

/// Replacing all the matches that `find_matches` reports, back to front,
/// gives the text in which each occurrence, left to right, is replaced.
pub proof fn law_replace_all_matches(s: Seq<char>, q: Seq<char>, case_sensitive: bool, r: Seq<char>)
    ensures
        splice_all(s, spec_find_matches(s, q, case_sensitive), r) == replaced_all(
            s,
            spec_find_matches(s, q, case_sensitive),
            r,
        ),
{
    let hay = folded(s, case_sensitive);
    let needle = folded(q, case_sensitive);
    let ms = spec_find_matches(s, q, case_sensitive);
    lemma_matches_proper(hay, needle, 0);
    assert forall|k: int| 0 <= k < ms.len() implies 0 <= #[trigger] ms[k].0 <= ms[k].1 <= s.len() by {}
    lemma_splice_all_replaced(s, ms, r);
}

/// Every range of `ms` moved by `d`.
pub open spec fn shift(ms: Seq<(int, int)>, d: int) -> Seq<(int, int)> {
    ms.map_values(|p: (int, int)| (p.0 + d, p.1 + d))
}

/// `needle` occurs in `hay` at `p`.
pub open spec fn occurs(hay: Seq<char>, needle: Seq<char>, p: int) -> bool {
    0 <= p && p + needle.len() <= hay.len() && hay.subrange(p, p + needle.len()) == needle
}

/// No occurrence of `needle` in `hay` overlaps the stretch `lo..hi`.
pub open spec fn none_across(hay: Seq<char>, needle: Seq<char>, lo: int, hi: int) -> bool {
    forall|p: int| p < hi && p + needle.len() > lo ==> !#[trigger] occurs(hay, needle, p)
}

/// Positions without an occurrence do not change what the scan finds.
proof fn lemma_scan_skip(h: Seq<char>, n: Seq<char>, e: int, y: int)
    requires
        n.len() > 0,
        0 <= e <= y,
        forall|p: int| e <= p < y ==> !#[trigger] occurs(h, n, p),
    ensures
        matches_from(h, n, e) == matches_from(h, n, y),
    decreases y - e,
{
    if e < y {
        assert(!occurs(h, n, e));
        lemma_scan_skip(h, n, e + 1, y);
        if e + n.len() > h.len() {
            assert(matches_from(h, n, e) =~= Seq::<(int, int)>::empty());
            assert(matches_from(h, n, e + 1) =~= Seq::<(int, int)>::empty());
        }
    }
}

/// The scan of a suffix does not depend on what precedes it.
proof fn lemma_scan_suffix(a: Seq<char>, b: Seq<char>, n: Seq<char>, j: int)
    requires
        n.len() > 0,
        0 <= j,
    ensures
        matches_from(a + b, n, a.len() + j) == shift(matches_from(b, n, j), a.len() as int),
    decreases b.len() - j,
{
    let m = n.len() as int;
    if j + m > b.len() {
        assert(shift(Seq::<(int, int)>::empty(), a.len() as int) =~= Seq::<(int, int)>::empty());
    } else {
        assert((a + b).subrange(a.len() + j, a.len() + j + m) =~= b.subrange(j, j + m));
        if b.subrange(j, j + m) == n {
            lemma_scan_suffix(a, b, n, j + m);
            let rest = matches_from(b, n, j + m);
            assert(shift(seq![(j, j + m)] + rest, a.len() as int) =~= seq![(a.len() + j, a.len() + j + m)]
                + shift(rest, a.len() as int));
        } else {
            lemma_scan_suffix(a, b, n, j + 1);
        }
    }
}

/// The first range the scan finds from `e` is an occurrence with none
/// before it, and the scan goes on after it.
proof fn lemma_scan_first(h: Seq<char>, n: Seq<char>, e: int)
    requires
        n.len() > 0,
        0 <= e,
        matches_from(h, n, e).len() > 0,
    ensures
        ({
            let x = matches_from(h, n, e)[0].0;
            &&& e <= x
            &&& occurs(h, n, x)
            &&& matches_from(h, n, e)[0].1 == x + n.len()
            &&& matches_from(h, n, e) == seq![(x, x + n.len())] + matches_from(h, n, x + n.len())
            &&& forall|p: int| e <= p < x ==> !#[trigger] occurs(h, n, p)
        }),
    decreases h.len() - e,
{
    let m = n.len() as int;
    if h.subrange(e, e + m) == n {
        assert(matches_from(h, n, e)[0] == (e, e + m));
    } else {
        lemma_scan_first(h, n, e + 1);
    }
}

/// Where the scan stands after the `k`-th match: the end of the previous match.
pub open spec fn resume_at(ms: Seq<(int, int)>, k: int) -> int {
    if k == 0 {
        0
    } else {
        ms[k - 1].1
    }
}

/// The scan from the start is the first `k` matches and then the scan from
/// the end of the `k`-th.
proof fn lemma_scan_prefix(h: Seq<char>, n: Seq<char>, k: int)
    requires
        n.len() > 0,
        0 <= k <= matches_from(h, n, 0).len(),
    ensures
        matches_from(h, n, 0) == matches_from(h, n, 0).take(k) + matches_from(h, n, resume_at(
            matches_from(h, n, 0),
            k,
        )),
    decreases k,
{
    let ms = matches_from(h, n, 0);
    if k == 0 {
        assert(ms.take(0) + ms =~= ms);
    } else {
        lemma_scan_prefix(h, n, k - 1);
        let e = resume_at(ms, k - 1);
        let rest = matches_from(h, n, e);
        assert(rest =~= ms.skip(k - 1));
        lemma_matches_proper(h, n, 0);
        if k - 1 > 0 {
            assert(0 <= ms[k - 2].0);
        }
        lemma_scan_first(h, n, e);
        assert(rest[0] == ms[k - 1]);
        assert(ms.take(k - 1) + (seq![ms[k - 1]] + matches_from(h, n, ms[k - 1].1)) =~= ms.take(k)
            + matches_from(h, n, ms[k - 1].1));
    }
}

/// The text with the `i`-th match of `needle` replaced by `r`.
pub open spec fn replace_match(h: Seq<char>, n: Seq<char>, i: int, r: Seq<char>) -> Seq<char> {
    let m = matches_from(h, n, 0)[i];
    h.subrange(0, m.0) + r + h.subrange(m.1, h.len() as int)
}

/// After the replacement, the scan of the new text from the end of the
/// inserted text is the scan of the old text after the `i`-th match, moved.
proof fn lemma_walk_tail(h: Seq<char>, n: Seq<char>, i: int, r: Seq<char>)
    requires
        n.len() > 0,
        0 <= i < matches_from(h, n, 0).len(),
    ensures
        ({
            let ms = matches_from(h, n, 0);
            matches_from(replace_match(h, n, i, r), n, ms[i].0 + r.len()) == shift(
                ms.skip(i + 1),
                r.len() - n.len(),
            )
        }),
{
    let m = n.len() as int;
    let ms = matches_from(h, n, 0);
    lemma_matches_proper(h, n, 0);
    let lo = ms[i].0;
    let hi = ms[i].1;
    assert(0 <= lo && hi == lo + m && hi <= h.len());
    let h2 = replace_match(h, n, i, r);
    let tail = h.subrange(hi, h.len() as int);
    let head2 = h.subrange(0, lo) + r;
    assert(h2 =~= head2 + tail);
    lemma_scan_suffix(head2, tail, n, 0);
    let head = h.subrange(0, hi);
    assert(h =~= head + tail);
    lemma_scan_suffix(head, tail, n, 0);
    lemma_scan_prefix(h, n, i + 1);
    assert(resume_at(ms, i + 1) == hi);
    assert(ms.take(i + 1) + matches_from(h, n, hi) == ms);
    assert(matches_from(h, n, hi) =~= ms.skip(i + 1));
    let x = matches_from(tail, n, 0);
    assert(shift(x, head2.len() as int) =~= shift(shift(x, hi), r.len() - m));
}

/// Before the inserted text, the scan of the new text finds the matches
/// before the `i`-th and nothing else, when no occurrence overlaps the
/// inserted text.
proof fn lemma_walk_head(h: Seq<char>, n: Seq<char>, i: int, r: Seq<char>)
    requires
        n.len() > 0,
        0 <= i < matches_from(h, n, 0).len(),
        none_across(
            replace_match(h, n, i, r),
            n,
            matches_from(h, n, 0)[i].0,
            matches_from(h, n, 0)[i].0 + r.len(),
        ),
    ensures
        ({
            let ms = matches_from(h, n, 0);
            matches_from(replace_match(h, n, i, r), n, 0) == ms.take(i) + matches_from(
                replace_match(h, n, i, r),
                n,
                ms[i].0 + r.len(),
            )
        }),
{
    let m = n.len() as int;
    let ms = matches_from(h, n, 0);
    lemma_matches_proper(h, n, 0);
    let lo = ms[i].0;
    assert(0 <= lo && ms[i].1 == lo + m && ms[i].1 <= h.len());
    let h2 = replace_match(h, n, i, r);
    lemma_walk_prefix(h, n, i, r, i);
    lemma_scan_prefix(h, n, i);
    let e = resume_at(ms, i);
    assert(ms.take(i) + matches_from(h, n, e) == ms);
    assert(matches_from(h, n, e) =~= ms.skip(i));
    if i > 0 {
        assert(0 <= ms[i - 1].0);
        assert(ms[i - 1].1 <= ms[i].0);
    }
    assert(0 <= e <= lo);
    lemma_scan_first(h, n, e);
    assert(matches_from(h, n, e)[0] == ms[i]);
    assert forall|p: int| e <= p < lo + r.len() implies !#[trigger] occurs(h2, n, p) by {
        if p + m <= lo {
            assert(h2.subrange(p, p + m) =~= h.subrange(p, p + m));
            assert(!occurs(h, n, p));
        }
    }
    lemma_scan_skip(h2, n, e, lo + r.len());
}

/// Replacing the `i`-th match with `r` leaves the matches before it, drops
/// it, and moves those after it by the change in length, as long as no
/// occurrence of the needle overlaps the replacement.
proof fn lemma_replace_walks_forward(h: Seq<char>, n: Seq<char>, i: int, r: Seq<char>)
    requires
        n.len() > 0,
        0 <= i < matches_from(h, n, 0).len(),
        none_across(
            replace_match(h, n, i, r),
            n,
            matches_from(h, n, 0)[i].0,
            matches_from(h, n, 0)[i].0 + r.len(),
        ),
    ensures
        ({
            let ms = matches_from(h, n, 0);
            matches_from(replace_match(h, n, i, r), n, 0) == ms.take(i) + shift(ms.skip(i + 1), r.len() - n.len())
        }),
{
    lemma_walk_head(h, n, i, r);
    lemma_walk_tail(h, n, i, r);
}

/// The scan of the replaced text agrees with the scan of the old text on the
/// first `k` matches (`k <= i`), which end before the replaced match.
proof fn lemma_walk_prefix(h: Seq<char>, n: Seq<char>, i: int, r: Seq<char>, k: int)
    requires
        n.len() > 0,
        0 <= k <= i < matches_from(h, n, 0).len(),
    ensures
        ({
            let ms = matches_from(h, n, 0);
            let h2 = replace_match(h, n, i, r);
            matches_from(h2, n, 0) == ms.take(k) + matches_from(h2, n, resume_at(ms, k))
        }),
    decreases k,
{
    let m = n.len() as int;
    let ms = matches_from(h, n, 0);
    lemma_matches_proper(h, n, 0);
    let lo = ms[i].0;
    assert(0 <= lo && ms[i].1 == lo + m && ms[i].1 <= h.len());
    let h2 = replace_match(h, n, i, r);
    if k == 0 {
        assert(ms.take(0) + matches_from(h2, n, 0) =~= matches_from(h2, n, 0));
    } else {
        lemma_walk_prefix(h, n, i, r, k - 1);
        lemma_walk_step(h, n, i, r, k);
    }
}

/// One step of `lemma_walk_prefix`: the `k`-th match (`k <= i`) is found
/// again in the replaced text, right where the scan resumes.
#[verifier::spinoff_prover]
#[verifier::rlimit(40)]
proof fn lemma_walk_step(h: Seq<char>, n: Seq<char>, i: int, r: Seq<char>, k: int)
    requires
        n.len() > 0,
        0 < k <= i < matches_from(h, n, 0).len(),
    ensures
        ({
            let ms = matches_from(h, n, 0);
            let h2 = replace_match(h, n, i, r);
            ms.take(k - 1) + matches_from(h2, n, resume_at(ms, k - 1)) == ms.take(k) + matches_from(
                h2,
                n,
                resume_at(ms, k),
            )
        }),
{
    let m = n.len() as int;
    let ms = matches_from(h, n, 0);
    lemma_matches_proper(h, n, 0);
    let lo = ms[i].0;
    assert(0 <= lo && ms[i].1 == lo + m && ms[i].1 <= h.len());
    let h2 = replace_match(h, n, i, r);
    let a = h.subrange(0, lo);
    assert(h2 =~= a + (r + h.subrange(ms[i].1, h.len() as int)));
    lemma_scan_prefix(h, n, k - 1);
    let e = resume_at(ms, k - 1);
    assert(ms.take(k - 1) + matches_from(h, n, e) == ms);
    assert(matches_from(h, n, e) =~= ms.skip(k - 1));
    if k - 1 > 0 {
        assert(0 <= ms[k - 2].0);
    }
    assert(0 <= e);
    lemma_scan_first(h, n, e);
    assert(matches_from(h, n, e)[0] == ms[k - 1]);
    let x = ms[k - 1].0;
    assert(e <= x);
    let pre = ms.take(i + 1);
    assert(ordered_ranges(pre, h.len() as int)) by {
        assert forall|j: int| 0 <= j < pre.len() - 1 implies #[trigger] pre[j].1 <= pre[j + 1].0 by {
            assert(pre[j] == ms[j] && pre[j + 1] == ms[j + 1]);
        }
    }
    lemma_ordered_before_last(pre, h.len() as int, k - 1);
    assert(ms.take(i + 1)[k - 1] == ms[k - 1]);
    assert(ms.take(i + 1).last() == ms[i]);
    assert(ms[k - 1].1 <= lo);
    assert(x + m <= lo);
    assert forall|p: int| e <= p < x implies !#[trigger] occurs(h2, n, p) by {
        assert(!occurs(h, n, p));
        assert(h2.subrange(p, p + m) =~= h.subrange(p, p + m));
    }
    lemma_scan_skip(h2, n, e, x);
    assert(h2.subrange(x, x + m) =~= h.subrange(x, x + m));
    assert(occurs(h, n, x));
    assert(matches_from(h2, n, x) == seq![(x, x + m)] + matches_from(h2, n, x + m));
    assert(resume_at(ms, k) == x + m);
    assert(ms.take(k - 1) + (seq![(x, x + m)] + matches_from(h2, n, x + m)) =~= ms.take(k)
        + matches_from(h2, n, x + m));
}

/// After the current match is replaced, the matches of the new text are the
/// other matches, those after it moved by the change in length; so the same
/// index then names the following match, and Replace → Replace walks
/// forward. This holds when no occurrence of the (folded) query overlaps the
/// inserted replacement.
pub proof fn law_replace_current_walks_forward(s: Seq<char>, q: Seq<char>, case_sensitive: bool, i: int, rw: Seq<char>)
    requires
        0 <= i < spec_find_matches(s, q, case_sensitive).len(),
        none_across(
            folded(
                splice_chars(
                    s,
                    spec_find_matches(s, q, case_sensitive)[i].0,
                    spec_find_matches(s, q, case_sensitive)[i].1,
                    rw,
                ),
                case_sensitive,
            ),
            folded(q, case_sensitive),
            spec_find_matches(s, q, case_sensitive)[i].0,
            spec_find_matches(s, q, case_sensitive)[i].0 + rw.len(),
        ),
    ensures
        ({
            let ms = spec_find_matches(s, q, case_sensitive);
            spec_find_matches(splice_chars(s, ms[i].0, ms[i].1, rw), q, case_sensitive) == ms.take(i) + shift(
                ms.skip(i + 1),
                rw.len() - q.len(),
            )
        }),
{
    let h = folded(s, case_sensitive);
    let n = folded(q, case_sensitive);
    let ms = spec_find_matches(s, q, case_sensitive);
    lemma_matches_proper(h, n, 0);
    let lo = ms[i].0;
    let hi = ms[i].1;
    assert(0 <= lo <= hi <= s.len());
    let s2 = splice_chars(s, lo, hi, rw);
    assert(s2 =~= s.subrange(0, lo) + rw + s.subrange(hi, s.len() as int));
    assert(folded(s2, case_sensitive) =~= h.subrange(0, lo) + folded(rw, case_sensitive) + h.subrange(hi, h.len() as int));
    lemma_replace_walks_forward(h, n, i, folded(rw, case_sensitive));
}

/// When the scan from `e` finds nothing, nothing occurs at or after `e`.
proof fn lemma_scan_none(h: Seq<char>, n: Seq<char>, e: int)
    requires
        n.len() > 0,
        0 <= e,
        matches_from(h, n, e).len() == 0,
    ensures
        forall|p: int| e <= p ==> !#[trigger] occurs(h, n, p),
    decreases h.len() - e,
{
    if e + n.len() <= h.len() {
        if h.subrange(e, e + n.len()) == n {
            assert(matches_from(h, n, e).len() >= 1);
        }
        lemma_scan_none(h, n, e + 1);
        assert forall|p: int| e <= p implies !#[trigger] occurs(h, n, p) by {
            if p > e {
                assert(e + 1 <= p);
            }
        }
    }
}

/// The `j`-th match is the leftmost occurrence from where the scan resumes.
proof fn lemma_match_leftmost(h: Seq<char>, n: Seq<char>, j: int)
    requires
        n.len() > 0,
        0 <= j < matches_from(h, n, 0).len(),
    ensures
        ({
            let ms = matches_from(h, n, 0);
            &&& occurs(h, n, ms[j].0)
            &&& ms[j].1 == ms[j].0 + n.len()
            &&& forall|p: int| resume_at(ms, j) <= p < ms[j].0 ==> !#[trigger] occurs(h, n, p)
        }),
{
    let ms = matches_from(h, n, 0);
    lemma_matches_proper(h, n, 0);
    lemma_scan_prefix(h, n, j);
    let e = resume_at(ms, j);
    assert(ms.take(j) + matches_from(h, n, e) == ms);
    assert(matches_from(h, n, e) =~= ms.skip(j));
    if j > 0 {
        assert(0 <= ms[j - 1].0);
    }
    lemma_scan_first(h, n, e);
    assert(matches_from(h, n, e)[0] == ms[j]);
}

/// The matches are the leftmost occurrence of the (folded) query, then
/// the leftmost one from the end of each match on, until none is left:
/// there are none exactly when the query occurs nowhere. An empty query
/// matches nothing.
pub proof fn law_find_matches_greedy(s: Seq<char>, q: Seq<char>, case_sensitive: bool)
    ensures
        q.len() == 0 ==> spec_find_matches(s, q, case_sensitive).len() == 0,
        q.len() > 0 ==> ({
            let h = folded(s, case_sensitive);
            let n = folded(q, case_sensitive);
            let ms = spec_find_matches(s, q, case_sensitive);
            &&& forall|j: int|
                0 <= j < ms.len() ==> occurs(h, n, #[trigger] ms[j].0) && ms[j].1 == ms[j].0 + q.len()
            &&& ms.len() > 0 ==> forall|p: int| p < ms[0].0 ==> !#[trigger] occurs(h, n, p)
            &&& forall|j: int, p: int|
                0 < j < ms.len() && ms[j - 1].1 <= p < #[trigger] ms[j].0 ==> !#[trigger] occurs(h, n, p)
            &&& ms.len() > 0 ==> forall|p: int| ms.last().1 <= p ==> !#[trigger] occurs(h, n, p)
            &&& ms.len() == 0 <==> forall|p: int| !#[trigger] occurs(h, n, p)
        }),
{
    let h = folded(s, case_sensitive);
    let n = folded(q, case_sensitive);
    let ms = spec_find_matches(s, q, case_sensitive);
    if q.len() > 0 {
        assert(n.len() == q.len());
        assert forall|j: int| 0 <= j < ms.len() implies occurs(h, n, #[trigger] ms[j].0) && ms[j].1 == ms[j].0
            + q.len() by {
            lemma_match_leftmost(h, n, j);
        }
        if ms.len() > 0 {
            lemma_match_leftmost(h, n, 0);
            assert forall|p: int| p < ms[0].0 implies !#[trigger] occurs(h, n, p) by {
                if p >= 0 {
                    assert(resume_at(ms, 0) <= p);
                }
            }
        }
        assert forall|j: int, p: int|
            0 < j < ms.len() && ms[j - 1].1 <= p < #[trigger] ms[j].0 implies !#[trigger] occurs(h, n, p) by {
            lemma_match_leftmost(h, n, j);
            assert(resume_at(ms, j) == ms[j - 1].1);
        }
        lemma_matches_proper(h, n, 0);
        lemma_scan_prefix(h, n, ms.len() as int);
        let e = resume_at(ms, ms.len() as int);
        assert(ms.take(ms.len() as int) =~= ms);
        if ms.len() > 0 {
            assert(0 <= ms[ms.len() - 1].0);
        }
        lemma_scan_none(h, n, e);
        if ms.len() == 0 {
            assert forall|p: int| !#[trigger] occurs(h, n, p) by {
                if p >= 0 {
                    assert(e <= p);
                }
            }
        } else {
            lemma_match_leftmost(h, n, 0);
        }
    }
}

} // verus!
