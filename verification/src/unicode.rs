//! Conversions between strings and characters, and the standard library's
//! Unicode-table operations that the parsers rely on: UTF-8 decoding with
//! replacement, lowercasing, and the `Debug` quoting of strings.
//!
//! The three table-driven operations are not rebuilt here: each is called
//! through one small function whose contract names its result (and, for
//! decoding, states that valid UTF-8 is decoded as it is).
use vstd::prelude::*;
use vstd::utf8::{
    codepoint_width_1, decode_first_scalar, decode_utf8, is_leading_byte_width_1,
    is_leading_byte_width_2, is_leading_byte_width_3,
    length_of_first_scalar, pop_first_scalar, valid_first_scalar, valid_utf8,
};

verus! {

/// What `str::to_lowercase` returns for the text `s`.
pub uninterp spec fn lowercase_of(s: Seq<char>) -> Seq<char>;

/// What `String::from_utf8_lossy` decodes from the bytes `b`.
pub uninterp spec fn utf8_lossy(b: Seq<u8>) -> Seq<char>;

/// What `Debug` prints for the string `s` (quotes included).
pub uninterp spec fn debug_text(s: Seq<char>) -> Seq<char>;

/// Appends one character (`String::push`).
#[verifier::external_body]
pub(crate) fn push_char(s: &mut String, c: char)
    ensures
        final(s)@ == old(s)@.push(c),
{
    s.push(c)
}

/// Lowercases a text with `str::to_lowercase`.  The contract names the
/// result; the Unicode case tables that decide it are left unsaid.
#[verifier::external_body]
pub(crate) fn lowercase(s: &str) -> (r: String)
    ensures
        r@ == lowercase_of(s@),
{
    s.to_lowercase()
}

/// Decodes bytes with `String::from_utf8_lossy`, which puts U+FFFD in place
/// of each ill-formed sequence.  The contract names the result and states
/// that valid UTF-8 is decoded as it is; how ill-formed input is replaced is
/// left unsaid.
#[verifier::external_body]
pub(crate) fn decode_lossy(bytes: &[u8]) -> (s: String)
    ensures
        s@ == utf8_lossy(bytes@),
        valid_utf8(bytes@) ==> s@ == decode_utf8(bytes@),
{
    String::from_utf8_lossy(bytes).into_owned()
}

/// A character that `Debug` prints as it is inside a quoted string:
/// printable ASCII other than `"` and `\\`.
pub open spec fn is_plain_char(c: char) -> bool {
    ' ' <= c && c <= '~' && c != '"' && c != '\\'
}

/// Whether every character of `s` is plain.
pub open spec fn is_plain_text(s: Seq<char>) -> bool {
    forall|i: int| 0 <= i < s.len() ==> is_plain_char(#[trigger] s[i])
}

/// Formats a string with `Debug` (`format!("{:?}", s)`), which prints it
/// between `"` with each character as `char::escape_debug` gives it.  The
/// contract names the result and states what that documentation gives: a
/// printable ASCII character other than `"` and `\\` stands for itself, and
/// every escape is `\\` followed by letters, digits, `{`, `}` or the escaped
/// quote or backslash.  So plain text is printed between quotes as it is,
/// no `;` appears that the text does not hold, and no line end appears.
/// Which other characters are escaped, and how, is left unsaid.
#[verifier::external_body]
pub(crate) fn debug_quoted(s: &str) -> (r: String)
    ensures
        r@ == debug_text(s@),
        is_plain_text(s@) ==> r@ == seq!['"'] + s@ + seq!['"'],
        !s@.contains(';') ==> !r@.contains(';'),
        !r@.contains('\n'),
{
    format!("{:?}", s)
}

/// The characters of a string.
pub fn chars_of(s: &str) -> (v: Vec<char>)
    ensures
        v@ == s@,
{
    let mut v: Vec<char> = Vec::new();
    for c in it: s.chars()
        invariant
            v@ =~= it.seq().take(it.index() as int),
    {
        v.push(c);
    }
    v
}

/// A string holding the characters of `v`.
pub fn string_of(v: &Vec<char>) -> (s: String)
    ensures
        s@ == v@,
{
    let mut s = String::new();
    let mut i: usize = 0;
    while i < v.len()
        invariant
            i <= v.len(),
            s@ =~= v@.take(i as int),
        decreases v.len() - i,
    {
        push_char(&mut s, v[i]);
        i = i + 1;
    }
    assert(v@.take(v.len() as int) =~= v@);
    s
}

/// Appends the characters of `v` to `s`.
pub fn append_chars(s: &mut String, v: &Vec<char>)
    ensures
        final(s)@ == old(s)@ + v@,
{
    let mut i: usize = 0;
    while i < v.len()
        invariant
            i <= v.len(),
            s@ =~= old(s)@ + v@.take(i as int),
        decreases v.len() - i,
    {
        push_char(s, v[i]);
        i = i + 1;
    }
    assert(v@.take(v.len() as int) =~= v@);
}

/// The lowercase of a sequence of characters, through [`lowercase`].
pub fn lowercase_chars(v: &Vec<char>) -> (r: Vec<char>)
    ensures
        r@ == lowercase_of(v@),
{
    let s = string_of(v);
    let l = lowercase(s.as_str());
    chars_of(l.as_str())
}

/// Decoding valid UTF-8 goes piece by piece: the two pieces together are
/// valid, and decode to the two decodings one after the other.
pub proof fn lemma_decode_concat(x: Seq<u8>, y: Seq<u8>)
    requires
        valid_utf8(x),
        valid_utf8(y),
    ensures
        valid_utf8(x + y),
        decode_utf8(x + y) == decode_utf8(x) + decode_utf8(y),
    decreases x.len(),
{
    if x.len() == 0 {
        assert(x + y =~= y);
    } else {
        let n = length_of_first_scalar(x);
        assert(x + y =~= x.subrange(0, n) + (pop_first_scalar(x) + y));
        assert(pop_first_scalar(x + y) =~= pop_first_scalar(x) + y);
        lemma_decode_concat(pop_first_scalar(x), y);
        assert(decode_first_scalar(x + y) == decode_first_scalar(x));
        assert(valid_first_scalar(x + y));
        assert(decode_utf8(x + y) =~= decode_utf8(x) + decode_utf8(y));
    }
}

/// The byte `b` on its own, below 0x80, decodes to the character of that code.
pub proof fn lemma_decode_ascii_byte(b: u8)
    requires
        b < 0x80,
    ensures
        valid_utf8(seq![b]),
        decode_utf8(seq![b]) == seq![(b as u32) as char],
{
    let s = seq![b];
    assert(codepoint_width_1(b) == b as u32) by (bit_vector)
        requires
            b < 0x80,
    ;
    assert(pop_first_scalar(s) =~= Seq::<u8>::empty());
    reveal_with_fuel(valid_utf8, 2);
    reveal_with_fuel(decode_utf8, 2);
    assert(decode_utf8(s) =~= seq![(b as u32) as char]);
}

/// The first scalar of valid UTF-8 is at most 0x10FFFF.
proof fn lemma_first_scalar_bound(x: Seq<u8>)
    requires
        valid_first_scalar(x),
    ensures
        decode_first_scalar(x) <= 0x10ffff,
{
    let b1 = x[0];
    if is_leading_byte_width_1(b1) {
        assert(((b1 & 0x7f) as u32) <= 0x7f) by (bit_vector);
    } else if is_leading_byte_width_2(b1) {
        let b2 = x[1];
        assert(((((b1 & 0x1f) as u32) << 6) | ((b2 & 0x3f) as u32)) <= 0x7ff) by (bit_vector);
    } else if is_leading_byte_width_3(b1) {
        let b2 = x[1];
        let b3 = x[2];
        assert(((((b1 & 0x0f) as u32) << 12) | (((b2 & 0x3f) as u32) << 6) | ((b3 & 0x3f) as u32))
            <= 0xffff) by (bit_vector);
    }
}

/// Valid UTF-8 that starts with a byte below 0x80 decodes to a text that
/// starts with the character of that code.
pub proof fn lemma_decode_first_ascii(x: Seq<u8>)
    requires
        valid_utf8(x),
        x.len() > 0,
        x[0] < 0x80,
    ensures
        decode_utf8(x).len() > 0,
        decode_utf8(x)[0] == (x[0] as u32) as char,
{
    let b0 = x[0];
    assert(codepoint_width_1(b0) == b0 as u32) by (bit_vector)
        requires
            b0 < 0x80,
    ;
    assert(decode_utf8(x) =~= seq![decode_first_scalar(x) as char] + decode_utf8(pop_first_scalar(x)));
}

/// Valid UTF-8 with no byte 0x0A decodes to a text with no line end.
pub proof fn lemma_decode_no_newline(x: Seq<u8>)
    requires
        valid_utf8(x),
        !x.contains(10u8),
    ensures
        !decode_utf8(x).contains('\n'),
    decreases x.len(),
{
    if x.len() > 0 {
        let rest = pop_first_scalar(x);
        assert(!rest.contains(10u8)) by {
            if rest.contains(10u8) {
                let i = choose|i: int| 0 <= i < rest.len() && rest[i] == 10u8;
                assert(x[i + length_of_first_scalar(x)] == rest[i]);
            }
        }
        lemma_decode_no_newline(rest);
        let b0 = x[0];
        assert(b0 != 10u8) by { assert(x[0] == b0); }
        if is_leading_byte_width_1(b0) {
            assert(codepoint_width_1(b0) == b0 as u32) by (bit_vector)
                requires
                    b0 <= 0x7f,
            ;
        }
        let d = decode_utf8(x);
        let cp = decode_first_scalar(x);
        assert(d =~= seq![cp as char] + decode_utf8(rest));
        assert(cp != 10u32);
        lemma_first_scalar_bound(x);
        assert(d[0] != '\n');
        assert(d.drop_first() =~= decode_utf8(rest));
        if d.contains('\n') {
            let j = choose|j: int| 0 <= j < d.len() && d[j] == '\n';
            assert(decode_utf8(rest)[j - 1] == '\n');
        }
    }
}

/// Valid UTF-8 whose last byte is 0x0A decodes to a text that ends a line.
pub proof fn lemma_decode_ends_line(x: Seq<u8>)
    requires
        valid_utf8(x),
        x.len() > 0,
        x.last() == 10u8,
    ensures
        decode_utf8(x).len() > 0,
        decode_utf8(x).last() == '\n',
    decreases x.len(),
{
    let rest = pop_first_scalar(x);
    let n = length_of_first_scalar(x);
    if rest.len() == 0 {
        let b0 = x[0];
        if is_leading_byte_width_1(b0) {
            assert(x.len() == 1);
            assert(b0 == 10u8);
            assert(codepoint_width_1(b0) == b0 as u32) by (bit_vector)
                requires
                    b0 <= 0x7f,
            ;
        } else {
            assert(x[n - 1] == x.last());
        }
    } else {
        assert(rest.last() == x.last());
        lemma_decode_ends_line(rest);
        assert(decode_utf8(x).last() == decode_utf8(rest).last());
    }
}

} // verus!
