//! Character-index and byte-index conversions over UTF-8 text.
//!
//! Editor selections are character indices, while `String` slicing needs byte
//! offsets; both directions are stated over the UTF-8 encoding of the text.
use vstd::prelude::*;
use vstd::utf8::*;

verus! {

/// Number of bytes in the UTF-8 encoding of `c`.
pub open spec fn char_width(c: char) -> nat {
    let v = c as u32;
    if v <= 0x7F {
        1
    } else if v <= 0x7FF {
        2
    } else if v <= 0xFFFF {
        3
    } else {
        4
    }
}

/// Number of bytes in the UTF-8 encoding of `s`.
pub open spec fn utf8_len(s: Seq<char>) -> nat
    decreases s.len(),
{
    if s.len() == 0 {
        0
    } else {
        utf8_len(s.drop_last()) + char_width(s.last())
    }
}

/// Byte offset of the `i`-th character of `s`.
pub open spec fn byte_offset(s: Seq<char>, i: int) -> nat {
    utf8_len(s.take(i))
}

/// Byte offset of character index `i`, clamped to the end of the text.
pub open spec fn byte_index_of_char(s: Seq<char>, i: int) -> nat {
    if i < s.len() {
        byte_offset(s, i)
    } else {
        utf8_len(s)
    }
}

/// `b` is the offset at which some character starts, or the end of the text.
pub open spec fn is_char_start(s: Seq<char>, b: int) -> bool {
    exists|k: int| 0 <= k <= s.len() && byte_offset(s, k) == b
}

/// The character index whose byte offset is `b` (for a character start `b`).
pub open spec fn char_index_at_byte(s: Seq<char>, b: int) -> int {
    choose|k: int| 0 <= k <= s.len() && byte_offset(s, k) == b
}

/// The byte length of a character is its UTF-8 encoding's length.
pub proof fn lemma_char_width(c: char)
    ensures
        char_width(c) == encode_scalar(c as u32).len(),
        1 <= char_width(c) <= 4,
{
    char_is_scalar(c);
}

/// Encoding distributes over concatenation.
pub proof fn lemma_encode_concat(a: Seq<char>, b: Seq<char>)
    ensures
        encode_utf8(a + b) == encode_utf8(a) + encode_utf8(b),
    decreases a.len(),
{
    if a.len() == 0 {
        assert(a + b =~= b);
    } else {
        assert((a + b).drop_first() =~= a.drop_first() + b);
        lemma_encode_concat(a.drop_first(), b);
        assert(encode_utf8(a + b) =~= encode_utf8(a) + encode_utf8(b));
    }
}

/// `utf8_len` is the length of the UTF-8 encoding.
pub proof fn lemma_utf8_len(s: Seq<char>)
    ensures
        utf8_len(s) == encode_utf8(s).len(),
    decreases s.len(),
{
    if s.len() > 0 {
        let init = s.drop_last();
        let last = seq![s.last()];
        assert(s =~= init + last);
        lemma_encode_concat(init, last);
        lemma_utf8_len(init);
        lemma_char_width(s.last());
        assert(last.drop_first() =~= Seq::<char>::empty());
        assert(encode_utf8(last) =~= encode_scalar(s.last() as u32) + encode_utf8(Seq::<char>::empty()));
    }
}

/// The byte offset grows by the width of each character.
pub proof fn lemma_byte_offset_step(s: Seq<char>, i: int)
    requires
        0 <= i < s.len(),
    ensures
        byte_offset(s, i + 1) == byte_offset(s, i) + char_width(s[i]),
{
    assert(s.take(i + 1).drop_last() =~= s.take(i));
}

/// Byte offsets are strictly increasing in the character index.
pub proof fn lemma_byte_offset_strict(s: Seq<char>, i: int, j: int)
    requires
        0 <= i < j <= s.len(),
    ensures
        byte_offset(s, i) < byte_offset(s, j),
    decreases j - i,
{
    lemma_byte_offset_step(s, j - 1);
    lemma_char_width(s[j - 1]);
    if i < j - 1 {
        lemma_byte_offset_strict(s, i, j - 1);
    }
}

/// Byte offsets never pass the byte length of the text.
pub proof fn lemma_byte_offset_bound(s: Seq<char>, i: int)
    requires
        0 <= i <= s.len(),
    ensures
        byte_offset(s, i) <= utf8_len(s),
        i <= byte_offset(s, i),
    decreases i,
{
    assert(s.take(s.len() as int) =~= s);
    if i < s.len() {
        lemma_byte_offset_strict(s, i, s.len() as int);
    }
    if i > 0 {
        lemma_byte_offset_bound(s, i - 1);
        lemma_byte_offset_step(s, i - 1);
        lemma_char_width(s[i - 1]);
    }
}

/// Two character indices with the same byte offset are equal.
pub proof fn lemma_byte_offset_injective(s: Seq<char>, i: int, j: int)
    requires
        0 <= i <= s.len(),
        0 <= j <= s.len(),
        byte_offset(s, i) == byte_offset(s, j),
    ensures
        i == j,
{
    if i < j {
        lemma_byte_offset_strict(s, i, j);
    } else if j < i {
        lemma_byte_offset_strict(s, j, i);
    }
}

/// Collects the characters of `s` in order.
pub fn chars_of(s: &str) -> (r: Vec<char>)
    ensures
        r@ == s@,
{
    let mut out: Vec<char> = Vec::new();
    for c in it: s.chars()
        invariant
            out@ == it.seq().take(it.index() as int),
            it.seq() == s@,
    {
        out.push(c);
    }
    out
}

/// The byte length of the text, as `str::len` reports it.
pub fn byte_len(s: &str) -> (r: usize)
    ensures
        r == utf8_len(s@),
{
    proof {
        lemma_utf8_len(s@);
    }
    s.as_bytes().len()
}

/// Number of bytes in the UTF-8 encoding of `c`.
pub fn width_of(c: char) -> (r: usize)
    ensures
        r == char_width(c),
{
    let v = c as u32;
    if v <= 0x7F {
        1
    } else if v <= 0x7FF {
        2
    } else if v <= 0xFFFF {
        3
    } else {
        4
    }
}

/// Byte offset of the `char_idx`-th character (clamped to `text.len()`).
pub fn char_to_byte(text: &str, char_idx: usize) -> (r: usize)
    ensures
        r == byte_index_of_char(text@, char_idx as int),
{
    let n = byte_len(text);
    let chars = chars_of(text);
    let ghost s = text@;
    let mut i: usize = 0;
    let mut b: usize = 0;
    while i < chars.len()
        invariant
            chars@ == s,
            s == text@,
            n == utf8_len(s),
            0 <= i <= s.len(),
            i <= char_idx,
            b == byte_offset(s, i as int),
        decreases s.len() - i,
    {
        if i == char_idx {
            assert(i < s.len());
            assert(byte_index_of_char(s, char_idx as int) == byte_offset(s, i as int));
            return b;
        }
        proof {
            lemma_byte_offset_step(s, i as int);
            lemma_byte_offset_bound(s, i + 1);
        }
        b = b + width_of(chars[i]);
        i = i + 1;
    }
    proof {
        assert(s.take(s.len() as int) =~= s);
    }
    n
}

/// Number of characters before `byte_idx` (clamped to the end of `text`).
///
/// The clamped offset must be a character start, as slicing there would
/// otherwise fail.
pub fn byte_to_char(text: &str, byte_idx: usize) -> (r: usize)
    requires
        is_char_start(text@, if byte_idx < utf8_len(text@) { byte_idx as int } else { utf8_len(text@) as int }),
    ensures
        r <= text@.len(),
        byte_offset(text@, r as int) == (if byte_idx < utf8_len(text@) { byte_idx as int } else { utf8_len(text@) as int }),
        r == char_index_at_byte(text@, if byte_idx < utf8_len(text@) { byte_idx as int } else { utf8_len(text@) as int }),
{
    let n = byte_len(text);
    let target = if byte_idx < n { byte_idx } else { n };
    let chars = chars_of(text);
    let ghost s = text@;
    let ghost k = char_index_at_byte(s, target as int);
    let mut i: usize = 0;
    let mut b: usize = 0;
    while b < target
        invariant
            chars@ == s,
            s == text@,
            n == utf8_len(s),
            target <= n,
            0 <= k <= s.len(),
            byte_offset(s, k) == target,
            0 <= i <= k,
            b == byte_offset(s, i as int),
        decreases s.len() - i,
    {
        proof {
            if i == k {
                assert(false);
            }
            lemma_byte_offset_step(s, i as int);
            lemma_byte_offset_bound(s, i + 1);
            if k < i + 1 {
                lemma_byte_offset_strict(s, k, i as int);
            }
            if i + 1 < k {
                lemma_byte_offset_strict(s, i + 1, k);
            }
        }
        b = b + width_of(chars[i]);
        i = i + 1;
    }
    proof {
        if i < k {
            lemma_byte_offset_strict(s, i as int, k);
        }
    }
    i
}

/// Converting a character index to bytes and back gives the (clamped) index.
pub proof fn law_char_byte_char(s: Seq<char>, i: int)
    requires
        0 <= i,
    ensures
        is_char_start(s, byte_index_of_char(s, i) as int),
        char_index_at_byte(s, byte_index_of_char(s, i) as int) == if i < s.len() { i } else { s.len() as int },
{
    let m = if i < s.len() { i } else { s.len() as int };
    assert(s.take(s.len() as int) =~= s);
    assert(byte_offset(s, m) == byte_index_of_char(s, i));
    let k = char_index_at_byte(s, byte_index_of_char(s, i) as int);
    lemma_byte_offset_injective(s, k, m);
}

/// Converting a character start to a character index and back gives it again.
pub proof fn law_byte_char_byte(s: Seq<char>, b: int)
    requires
        is_char_start(s, b),
    ensures
        byte_index_of_char(s, char_index_at_byte(s, b)) == b,
{
    let k = char_index_at_byte(s, b);
    assert(s.take(s.len() as int) =~= s);
}

} // verus!
