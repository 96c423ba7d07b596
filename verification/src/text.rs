//! Text helpers on top of the UTF-8 model in `vstd::utf8`: byte-to-string
//! decoding, string equality, and case folding for command names.

use vstd::prelude::*;

verus! {

use vstd::utf8::{
    decode_utf8, encode_utf8, encode_utf8_decode_utf8, encode_utf8_valid_utf8, is_ascii_chars,
    is_ascii_chars_encode_utf8, valid_utf8,
};

/// What `str::to_lowercase` returns when the input has a character
/// outside ASCII.
pub uninterp spec fn unicode_lower(s: Seq<char>) -> Seq<char>;

/// The lowercase form of one ASCII character.
pub open spec fn ascii_lower_char(c: char) -> char {
    if 'A' <= c && c <= 'Z' {
        ((c as u8) + 32) as char
    } else {
        c
    }
}

/// The lowercase form of a character sequence: the ASCII folding when
/// every character is ASCII, the Unicode folding otherwise.
pub open spec fn lower_of(s: Seq<char>) -> Seq<char> {
    if is_ascii_chars(s) {
        Seq::new(s.len(), |i: int| ascii_lower_char(s[i]))
    } else {
        unicode_lower(s)
    }
}

/// Relies on `str::to_lowercase`: the result depends on the characters
/// alone; each ASCII letter `A`-`Z` maps to `a`-`z` and every other
/// ASCII character stays as it is.
#[verifier::external_body]
pub fn to_lowercase(s: &String) -> (r: String)
    ensures
        r@ == lower_of(s@),
        !is_ascii_chars(s@) ==> r@ == unicode_lower(s@),
{
    s.as_str().to_lowercase()
}

/// Relies on `String::from_utf8`: it succeeds exactly on valid UTF-8
/// bytes and decodes them by the UTF-8 rules.
#[verifier::external_body]
pub fn bytes_to_string(bytes: Vec<u8>) -> (r: Option<String>)
    ensures
        r is Some <==> valid_utf8(bytes@),
        r matches Some(s) ==> s@ == decode_utf8(bytes@),
{
    match String::from_utf8(bytes) {
        Ok(s) => Some(s),
        Err(_) => None,
    }
}

/// String equality, decided on the UTF-8 bytes.
pub fn str_eq(a: &str, b: &str) -> (r: bool)
    ensures
        r == (a@ == b@),
{
    let ab = a.as_bytes_vec();
    let bb = b.as_bytes_vec();
    let r = ab == bb;
    proof {
        encode_utf8_decode_utf8(a@);
        encode_utf8_decode_utf8(b@);
        if r {
            assert(ab@ =~= bb@);
        } else {
            if a@ == b@ {
                assert(ab@ =~= bb@);
                assert(forall|i: int| 0 <= i < ab@.len() ==> ab@[i] == bb@[i]);
                assert(false);
            }
        }
    }
    r
}

/// The characters spelled by a sequence of ASCII bytes.
pub open spec fn ascii_chars_of(bytes: Seq<u8>) -> Seq<char> {
    Seq::new(bytes.len(), |i: int| bytes[i] as char)
}

/// Build a string out of ASCII bytes.
pub fn ascii_to_string(bytes: Vec<u8>) -> (r: String)
    requires
        forall|i: int| 0 <= i < bytes@.len() ==> bytes@[i] < 128,
    ensures
        r@ == ascii_chars_of(bytes@),
{
    proof {
        let s = ascii_chars_of(bytes@);
        assert(is_ascii_chars(s));
        is_ascii_chars_encode_utf8(s);
        assert(encode_utf8(s) =~= bytes@);
        encode_utf8_valid_utf8(s);
        encode_utf8_decode_utf8(s);
    }
    match bytes_to_string(bytes) {
        Some(s) => s,
        None => {
            proof {
                assert(false);
            }
            String::new()
        },
    }
}

} // verus!
