//! Character classes and trimming over character sequences.
use vstd::prelude::*;

verus! {

/// Whether `c` has the Unicode `White_Space` property, which
/// `char::is_whitespace` tests: `\t`..`\r`, the space, U+0085, U+00A0,
/// U+1680, U+2000..U+200A, U+2028, U+2029, U+202F, U+205F and U+3000.
pub open spec fn is_white(c: char) -> bool {
    let v = c as u32;
    ||| 0x09 <= v <= 0x0D
    ||| v == 0x20
    ||| v == 0x85
    ||| v == 0xA0
    ||| v == 0x1680
    ||| 0x2000 <= v <= 0x200A
    ||| v == 0x2028
    ||| v == 0x2029
    ||| v == 0x202F
    ||| v == 0x205F
    ||| v == 0x3000
}

/// Calls `char::is_whitespace`: true exactly for the characters with the
/// Unicode `White_Space` property.
#[verifier::external_body]
pub(crate) fn char_is_whitespace(c: char) -> (r: bool)
    ensures
        r == is_white(c),
{
    c.is_whitespace()
}

/// `s` without the trailing characters that satisfy `p`.
pub open spec fn trim_end_by(s: Seq<char>, p: spec_fn(char) -> bool) -> Seq<char>
    decreases s.len(),
{
    if s.len() > 0 && p(s.last()) {
        trim_end_by(s.drop_last(), p)
    } else {
        s
    }
}

/// `s` without the leading characters that satisfy `p`.
pub open spec fn trim_start_by(s: Seq<char>, p: spec_fn(char) -> bool) -> Seq<char>
    decreases s.len(),
{
    if s.len() > 0 && p(s[0]) {
        trim_start_by(s.drop_first(), p)
    } else {
        s
    }
}

/// Whitespace, as `str::trim` removes it.
pub open spec fn white() -> spec_fn(char) -> bool {
    |c: char| is_white(c)
}

/// `str::trim`: no leading or trailing whitespace.
pub open spec fn trim(s: Seq<char>) -> Seq<char> {
    trim_start_by(trim_end_by(s, white()), white())
}

/// End index of `s[lo..hi]` once trailing whitespace is removed.
pub fn trim_end_white(cs: &Vec<char>, lo: usize, hi: usize) -> (e: usize)
    requires
        lo <= hi <= cs@.len(),
    ensures
        lo <= e <= hi,
        cs@.subrange(lo as int, e as int) == trim_end_by(cs@.subrange(lo as int, hi as int), white()),
{
    let mut e = hi;
    while e > lo
        invariant
            lo <= e <= hi <= cs@.len(),
            trim_end_by(cs@.subrange(lo as int, e as int), white()) == trim_end_by(
                cs@.subrange(lo as int, hi as int),
                white(),
            ),
        decreases e,
    {
        if !char_is_whitespace(cs[e - 1]) {
            return e;
        }
        proof {
            assert(cs@.subrange(lo as int, e as int).drop_last() =~= cs@.subrange(lo as int, e - 1));
        }
        e = e - 1;
    }
    e
}

/// Start index of `s[lo..hi]` once leading whitespace is removed.
pub fn trim_start_white(cs: &Vec<char>, lo: usize, hi: usize) -> (a: usize)
    requires
        lo <= hi <= cs@.len(),
    ensures
        lo <= a <= hi,
        cs@.subrange(a as int, hi as int) == trim_start_by(cs@.subrange(lo as int, hi as int), white()),
{
    let mut a = lo;
    while a < hi
        invariant
            lo <= a <= hi <= cs@.len(),
            trim_start_by(cs@.subrange(a as int, hi as int), white()) == trim_start_by(
                cs@.subrange(lo as int, hi as int),
                white(),
            ),
        decreases hi - a,
    {
        if !char_is_whitespace(cs[a]) {
            return a;
        }
        proof {
            assert(cs@.subrange(a as int, hi as int).drop_first() =~= cs@.subrange(a + 1, hi as int));
        }
        a = a + 1;
    }
    a
}

/// End index of `s[lo..hi]` once trailing copies of `c` are removed.
pub fn trim_end_char(cs: &Vec<char>, lo: usize, hi: usize, c: char) -> (e: usize)
    requires
        lo <= hi <= cs@.len(),
    ensures
        lo <= e <= hi,
        cs@.subrange(lo as int, e as int) == trim_end_by(cs@.subrange(lo as int, hi as int), |x: char| x == c),
{
    let mut e = hi;
    while e > lo
        invariant
            lo <= e <= hi <= cs@.len(),
            trim_end_by(cs@.subrange(lo as int, e as int), |x: char| x == c) == trim_end_by(
                cs@.subrange(lo as int, hi as int),
                |x: char| x == c,
            ),
        decreases e,
    {
        if cs[e - 1] != c {
            return e;
        }
        proof {
            assert(cs@.subrange(lo as int, e as int).drop_last() =~= cs@.subrange(lo as int, e - 1));
        }
        e = e - 1;
    }
    e
}

/// End index of `s[lo..hi]` once trailing `\n` and `\r` are removed.
pub fn trim_end_newlines(cs: &Vec<char>, lo: usize, hi: usize) -> (e: usize)
    requires
        lo <= hi <= cs@.len(),
    ensures
        lo <= e <= hi,
        cs@.subrange(lo as int, e as int) == trim_end_by(
            cs@.subrange(lo as int, hi as int),
            |x: char| x == '\n' || x == '\r',
        ),
{
    let mut e = hi;
    while e > lo
        invariant
            lo <= e <= hi <= cs@.len(),
            trim_end_by(cs@.subrange(lo as int, e as int), |x: char| x == '\n' || x == '\r')
                == trim_end_by(cs@.subrange(lo as int, hi as int), |x: char| x == '\n' || x == '\r'),
        decreases e,
    {
        let x = cs[e - 1];
        if !(x == '\n' || x == '\r') {
            return e;
        }
        proof {
            assert(cs@.subrange(lo as int, e as int).drop_last() =~= cs@.subrange(lo as int, e - 1));
        }
        e = e - 1;
    }
    e
}

/// A copy of the characters `cs[lo..hi]` as a string.
pub fn string_of_range(cs: &Vec<char>, lo: usize, hi: usize) -> (r: String)
    requires
        lo <= hi <= cs@.len(),
    ensures
        r@ == cs@.subrange(lo as int, hi as int),
{
    let mut out = String::new();
    let mut i = lo;
    while i < hi
        invariant
            lo <= i <= hi <= cs@.len(),
            out@ == cs@.subrange(lo as int, i as int),
        decreases hi - i,
    {
        proof {
            assert(cs@.subrange(lo as int, i + 1) =~= cs@.subrange(lo as int, i as int).push(cs@[i as int]));
        }
        crate::strs::push_char(&mut out, cs[i]);
        i = i + 1;
    }
    out
}

} // verus!
