//! Decoding the key names that the keyboard listener prints, one per line.

use vstd::prelude::*;
use vstd::utf8::{
    encode_utf8, encode_utf8_valid_utf8, is_ascii_chars, is_ascii_chars_encode_utf8,
    is_char_boundary, is_char_boundary_iff_not_is_continuation_byte,
    is_char_boundary_start_end_of_seq,
};

verus! {

/// The lower-case mapping of a `char`, as the Unicode tables of the standard
/// library give it: the first `char` of that mapping.
pub uninterp spec fn lowercase_first(c: char) -> char;

/// The lower-case form of an ASCII character: `A`..`Z` become `a`..`z`, any
/// other character stays as it is.
pub open spec fn ascii_lower(c: char) -> char {
    if 'A' <= c <= 'Z' {
        ((c as u32) + 32) as char
    } else {
        c
    }
}

/// The letter a key stands for: the lower-case form of its character, spelled
/// out for ASCII and left to the Unicode tables beyond it.
pub open spec fn lower_letter(c: char) -> char {
    if (c as u32) < 128 {
        ascii_lower(c)
    } else {
        lowercase_first(c)
    }
}

/// `char::to_lowercase` yields one or more `char`s; this returns the first.
/// Claimed: the result is always present and is `lowercase_first(c)`; for the
/// ASCII letters `A`..`Z` it is the matching `a`..`z`, and any other ASCII
/// `char` maps to itself. Beyond ASCII, the mapping is left to the name.
#[verifier::external_body]
fn to_lowercase_first(c: char) -> (res: Option<char>)
    ensures
        res == Some(lowercase_first(c)),
        (c as u32) < 128 ==> res == Some(ascii_lower(c)),
{
    c.to_lowercase().next()
}

/// `s` begins with the three characters `K`, `e`, `y`.
pub open spec fn starts_with_key(s: Seq<char>) -> bool {
    &&& s.len() >= 3
    &&& s[0] == 'K'
    &&& s[1] == 'e'
    &&& s[2] == 'y'
}

/// The inputs on which a key name can be decoded without a fault: its UTF-8
/// encoding has at least three bytes, the third byte ends a character, and a
/// name that starts with `Key` goes on past it.
pub open spec fn check_key_accepts(s: Seq<char>) -> bool {
    &&& encode_utf8(s).len() >= 3
    &&& is_char_boundary(encode_utf8(s), 3)
    &&& (starts_with_key(s) ==> s.len() > 3)
}

/// What `check_key` gives for a key name: for `Key` followed by a character,
/// that character in lower case; for any other name, nothing.
pub open spec fn spec_check_key(s: Seq<char>) -> Option<char> {
    if starts_with_key(s) && s.len() > 3 {
        Some(lower_letter(s[3]))
    } else {
        None
    }
}

/// Decodes a key name such as `KeyA` into the typed letter (`a`).
pub fn check_key(key: String) -> (res: Option<char>)
    requires
        check_key_accepts(key@),
    ensures
        res == spec_check_key(key@),
        res is Some ==> key@.len() > 3 && key@[0] == 'K' && key@[1] == 'e' && key@[2] == 'y',
        (key@.len() > 3 && key@[0] == 'K' && key@[1] == 'e' && key@[2] == 'y') ==> res is Some,
        (key@.len() > 3 && key@[0] == 'K' && key@[1] == 'e' && key@[2] == 'y' && 'A' <= key@[3]
            <= 'Z') ==> res == Some(((key@[3] as u32) + 32) as char),
        (key@.len() > 3 && key@[0] == 'K' && key@[1] == 'e' && key@[2] == 'y' && (key@[3] as u32)
            < 128 && !('A' <= key@[3] <= 'Z')) ==> res == Some(key@[3]),
        (key@.len() > 3 && key@[0] == 'K' && key@[1] == 'e' && key@[2] == 'y' && (key@[3] as u32)
            >= 128) ==> res == Some(lowercase_first(key@[3])),
{
    proof {
        lemma_check_key_meaning(key@);
    }
    let s = key.as_str();
    let n = s.unicode_len();
    if n >= 3 && s.get_char(0) == 'K' && s.get_char(1) == 'e' && s.get_char(2) == 'y' {
        let c = s.get_char(3);
        let lower = to_lowercase_first(c);
        match lower {
            Some(l) => Some(l),
            None => None,
        }
    } else {
        None
    }
}

/// Law (what decoding a key name gives): a name decodes to a letter only if it
/// begins with the three characters `K`, `e`, `y` and goes on past them, and
/// every such name decodes. The letter is the fourth character in lower case:
/// `A`..`Z` become `a`..`z`, other ASCII characters stay as they are, and
/// beyond ASCII the Unicode lower-case mapping applies.
pub proof fn lemma_check_key_meaning(s: Seq<char>)
    ensures
        spec_check_key(s) is Some ==> s.len() > 3 && s[0] == 'K' && s[1] == 'e' && s[2] == 'y',
        (s.len() > 3 && s[0] == 'K' && s[1] == 'e' && s[2] == 'y') ==> spec_check_key(s) is Some,
        (s.len() > 3 && s[0] == 'K' && s[1] == 'e' && s[2] == 'y' && 'A' <= s[3] <= 'Z')
            ==> spec_check_key(s) == Some(((s[3] as u32) + 32) as char),
        (s.len() > 3 && s[0] == 'K' && s[1] == 'e' && s[2] == 'y' && (s[3] as u32) < 128 && !('A'
            <= s[3] <= 'Z')) ==> spec_check_key(s) == Some(s[3]),
        (s.len() > 3 && s[0] == 'K' && s[1] == 'e' && s[2] == 'y' && (s[3] as u32) >= 128)
            ==> spec_check_key(s) == Some(lowercase_first(s[3])),
{
}

/// Law (which key names can be decoded): every name of ASCII characters with
/// at least three of them can be, except the bare name `Key`. (Its UTF-8 text
/// has one byte per character, so it has at least three bytes and a character
/// starts at byte three.)
pub proof fn lemma_ascii_names_decodable(s: Seq<char>)
    requires
        is_ascii_chars(s),
        s.len() >= 3,
        !(s.len() == 3 && s[0] == 'K' && s[1] == 'e' && s[2] == 'y'),
    ensures
        encode_utf8(s).len() >= 3,
        is_char_boundary(encode_utf8(s), 3),
        check_key_accepts(s),
{
    is_ascii_chars_encode_utf8(s);
    encode_utf8_valid_utf8(s);
    let b = encode_utf8(s);
    if s.len() == 3 {
        is_char_boundary_start_end_of_seq(b);
    } else {
        assert(s[3] as u8 == b[3]);
        assert('\0' <= s[3] <= '\u{7f}');
        assert((s[3] as u32) < 128);
        assert(b[3] < 128);
        is_char_boundary_iff_not_is_continuation_byte(b, 3);
    }
}

} // verus!
