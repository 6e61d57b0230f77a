//! Small string operations the rest of the library is built from.
use vstd::prelude::*;
use crate::text_util::{
    byte_offset, char_index_at_byte, is_char_start, lemma_byte_offset_injective, lemma_encode_concat,
    lemma_utf8_len, utf8_len,
};

verus! {

/// Concatenation adds byte lengths.
pub proof fn lemma_utf8_len_concat(a: Seq<char>, b: Seq<char>)
    ensures
        utf8_len(a + b) == utf8_len(a) + utf8_len(b),
{
    lemma_encode_concat(a, b);
    lemma_utf8_len(a);
    lemma_utf8_len(b);
    lemma_utf8_len(a + b);
}

/// The byte offset of index `k` is the byte length of the first `k` characters.
pub proof fn lemma_byte_offset_prefix(s: Seq<char>, k: int)
    requires
        0 <= k <= s.len(),
    ensures
        byte_offset(s, k) == utf8_len(s.subrange(0, k)),
{
    assert(s.take(k) =~= s.subrange(0, k));
}

/// In `a + b`, the byte offset of index `a.len() + j` is `utf8_len(a)` plus
/// the offset of `j` in `b`.
pub proof fn lemma_byte_offset_concat(a: Seq<char>, b: Seq<char>, j: int)
    requires
        0 <= j <= b.len(),
    ensures
        byte_offset(a + b, a.len() + j) == utf8_len(a) + byte_offset(b, j),
{
    assert((a + b).take(a.len() + j) =~= a + b.take(j));
    lemma_utf8_len_concat(a, b.take(j));
}

/// A character start of the text maps to the character index whose offset it is.
pub proof fn lemma_char_start_index(s: Seq<char>, k: int)
    requires
        0 <= k <= s.len(),
    ensures
        is_char_start(s, byte_offset(s, k) as int),
        char_index_at_byte(s, byte_offset(s, k) as int) == k,
{
    let j = char_index_at_byte(s, byte_offset(s, k) as int);
    lemma_byte_offset_injective(s, j, k);
}

/// `s` with the characters between byte offsets `lo` and `hi` replaced by `with`.
pub open spec fn spliced_bytes(s: Seq<char>, lo: int, hi: int, with: Seq<char>) -> Seq<char> {
    s.subrange(0, char_index_at_byte(s, lo)) + with + s.subrange(char_index_at_byte(s, hi), s.len() as int)
}

/// Calls `String::replace_range(lo..hi, with)`: the bytes `lo..hi` are
/// replaced by `with`. Both ends must be character starts, as the method
/// panics otherwise.
#[verifier::external_body]
pub(crate) fn replace_range(text: &mut String, lo: usize, hi: usize, with: &str)
    requires
        is_char_start(old(text)@, lo as int),
        is_char_start(old(text)@, hi as int),
        lo <= hi,
    ensures
        final(text)@ == spliced_bytes(old(text)@, lo as int, hi as int, with@),
{
    text.replace_range(lo..hi, with)
}

/// Calls `str` indexing `&text[lo..hi]`: the characters between two
/// character starts.
#[verifier::external_body]
pub(crate) fn byte_slice(text: &str, lo: usize, hi: usize) -> (r: &str)
    requires
        is_char_start(text@, lo as int),
        is_char_start(text@, hi as int),
        lo <= hi,
    ensures
        r@ == text@.subrange(char_index_at_byte(text@, lo as int), char_index_at_byte(text@, hi as int)),
{
    &text[lo..hi]
}

/// Calls `String::push`: appends one character.
#[verifier::external_body]
pub(crate) fn push_char(s: &mut String, c: char)
    ensures
        final(s)@ == old(s)@.push(c),
{
    s.push(c)
}

/// A string holding exactly the characters of `cs`.
pub fn string_from_chars(cs: &Vec<char>) -> (r: String)
    ensures
        r@ == cs@,
{
    let mut out = String::new();
    let mut i: usize = 0;
    while i < cs.len()
        invariant
            i <= cs@.len(),
            out@ == cs@.take(i as int),
        decreases cs@.len() - i,
    {
        proof {
            assert(cs@.take(i + 1) =~= cs@.take(i as int).push(cs@[i as int]));
        }
        push_char(&mut out, cs[i]);
        i = i + 1;
    }
    proof {
        assert(cs@.take(cs@.len() as int) =~= cs@);
    }
    out
}

/// A copy of `s` as an owned string.
pub fn owned(s: &str) -> (r: String)
    ensures
        r@ == s@,
{
    s.to_owned()
}

/// Concatenation of two strings.
pub fn concat(a: &str, b: &str) -> (r: String)
    ensures
        r@ == a@ + b@,
{
    let mut out = a.to_owned();
    out.append(b);
    out
}

/// Decimal digits of `n`, most significant first.
pub open spec fn decimal(n: nat) -> Seq<char>
    decreases n,
{
    if n < 10 {
        seq![digit_char(n)]
    } else {
        decimal(n / 10).push(digit_char(n % 10))
    }
}

/// The ASCII digit for `d < 10`.
pub open spec fn digit_char(d: nat) -> char {
    (('0' as u32) + d) as char
}

/// Decimal rendering of `n`, as `to_string` writes it.
pub fn decimal_string(n: u64) -> (r: String)
    ensures
        r@ == decimal(n as nat),
{
    let mut digits: Vec<char> = Vec::new();
    let mut m: u64 = n;
    // digits holds the last digits of n, least significant first.
    loop
        invariant_except_break
            decimal(n as nat) == decimal(m as nat) + digits@.reverse(),
        ensures
            decimal(n as nat) == digits@.reverse(),
        decreases m,
    {
        let d = m % 10;
        let c = char_of_digit(d);
        if m < 10 {
            proof {
                assert(decimal(m as nat) =~= seq![c]);
                assert(seq![c] + digits@.reverse() =~= digits@.push(c).reverse());
            }
            digits.push(c);
            break;
        }
        proof {
            let q = (m / 10) as nat;
            assert(decimal(m as nat) == decimal(q).push(c));
            assert(decimal(q).push(c) + digits@.reverse() =~= decimal(q) + digits@.push(c).reverse());
        }
        digits.push(c);
        m = m / 10;
    }
    let mut out = String::new();
    let mut k: usize = digits.len();
    while k > 0
        invariant
            k <= digits@.len(),
            out@ == digits@.reverse().take((digits@.len() - k) as int),
        decreases k,
    {
        k = k - 1;
        proof {
            assert(digits@.reverse().take((digits@.len() - k) as int) =~= digits@.reverse().take(
                (digits@.len() - k - 1) as int,
            ).push(digits@[k as int]));
        }
        push_char(&mut out, digits[k]);
    }
    proof {
        assert(digits@.reverse().take(digits@.len() as int) =~= digits@.reverse());
    }
    out
}

/// The ASCII digit of `d < 10`.
fn char_of_digit(d: u64) -> (c: char)
    requires
        d < 10,
    ensures
        c == digit_char(d as nat),
{
    if d == 0 { '0' }
    else if d == 1 { '1' }
    else if d == 2 { '2' }
    else if d == 3 { '3' }
    else if d == 4 { '4' }
    else if d == 5 { '5' }
    else if d == 6 { '6' }
    else if d == 7 { '7' }
    else if d == 8 { '8' }
    else { '9' }
}

} // verus!
