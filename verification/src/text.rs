//! Text: bytes seen as characters, and the standard-library conversions
//! between them.

use vstd::prelude::*;
use vstd::utf8::{
    decode_utf8, encode_utf8, encode_utf8_decode_utf8, encode_utf8_valid_utf8, is_ascii_chars,
    is_ascii_chars_encode_utf8, valid_utf8,
};

verus! {

/// Every byte is ASCII.
pub open spec fn all_ascii(b: Seq<u8>) -> bool {
    forall|i: int| 0 <= i < b.len() ==> #[trigger] b[i] < 128
}

/// ASCII bytes read as characters.
pub open spec fn ascii_chars(b: Seq<u8>) -> Seq<char> {
    Seq::new(b.len(), |i: int| b[i] as char)
}

/// ASCII bytes are valid UTF-8 and decode to the characters of the same codes.
pub proof fn lemma_ascii_utf8(b: Seq<u8>)
    requires
        all_ascii(b),
    ensures
        valid_utf8(b),
        decode_utf8(b) == ascii_chars(b),
        encode_utf8(ascii_chars(b)) == b,
{
    let c = ascii_chars(b);
    assert forall|i: int| 0 <= i < c.len() implies '\0' <= #[trigger] c[i] <= '\u{7f}' by {
        assert(b[i] < 128);
    }
    assert(is_ascii_chars(c));
    is_ascii_chars_encode_utf8(c);
    let e = encode_utf8(c);
    assert forall|i: int| 0 <= i < b.len() implies e[i] == b[i] by {
        assert(c[i] as u8 == e[i]);
        assert(b[i] < 128);
    }
    assert(e =~= b);
    encode_utf8_valid_utf8(c);
    encode_utf8_decode_utf8(c);
}

/// `String::from_utf8`: bytes that are valid UTF-8 become the string they encode.
#[verifier::external_body]
pub(crate) fn string_from_utf8(bytes: Vec<u8>) -> (s: String)
    requires
        valid_utf8(bytes@),
    ensures
        s@ == decode_utf8(bytes@),
{
    String::from_utf8(bytes).expect("bytes checked to be valid UTF-8")
}

/// A string made of ASCII bytes.
pub fn ascii_string(bytes: Vec<u8>) -> (s: String)
    requires
        all_ascii(bytes@),
    ensures
        s@ == ascii_chars(bytes@),
{
    proof {
        lemma_ascii_utf8(bytes@);
    }
    string_from_utf8(bytes)
}

/// The decimal digits of `n`, as ASCII bytes, most significant first.
pub open spec fn decimal_bytes(n: nat) -> Seq<u8>
    decreases n,
{
    if n < 10 {
        seq![(48 + n) as u8]
    } else {
        decimal_bytes(n / 10).push((48 + n % 10) as u8)
    }
}

/// The decimal notation of `n`.
pub open spec fn decimal_chars(n: nat) -> Seq<char> {
    ascii_chars(decimal_bytes(n))
}

fn decimal_digits(n: u128) -> (v: Vec<u8>)
    ensures
        v@ == decimal_bytes(n as nat),
        all_ascii(v@),
    decreases n,
{
    if n < 10 {
        let v = vec![(48 + n) as u8];
        assert(v@ =~= decimal_bytes(n as nat));
        v
    } else {
        let mut v = decimal_digits(n / 10);
        v.push((48 + n % 10) as u8);
        v
    }
}

/// The decimal notation of `n`, as `to_string` writes it.
pub fn decimal(n: u128) -> (s: String)
    ensures
        s@ == decimal_chars(n as nat),
{
    ascii_string(decimal_digits(n))
}

/// `Debug` formatting of a string slice, as `format!("{:?}", s)` writes it:
/// quoted, with escapes. The standard library does not fix its exact form.
pub uninterp spec fn debug_str_text(s: Seq<char>) -> Seq<char>;

/// `Debug` formatting of a byte slice, as `format!("{:?}", b)` writes it:
/// a bracketed list. The standard library does not fix its exact form.
pub uninterp spec fn debug_bytes_text(b: Seq<u8>) -> Seq<char>;

/// `format!("{:?}", s)` for a string slice.
#[verifier::external_body]
pub(crate) fn debug_str(s: &str) -> (r: String)
    ensures
        r@ == debug_str_text(s@),
{
    format!("{:?}", s)
}

/// `format!("{:?}", b)` for a byte slice.
#[verifier::external_body]
pub(crate) fn debug_bytes(b: &[u8]) -> (r: String)
    ensures
        r@ == debug_bytes_text(b@),
{
    format!("{:?}", b)
}

/// `String::from_iter` over characters: the string of those characters.
#[verifier::external_body]
pub(crate) fn string_from_chars(chars: &Vec<char>) -> (s: String)
    ensures
        s@ == chars@,
{
    String::from_iter(chars.iter())
}

} // verus!
