//! Character classes of the structured-field grammar, shared by the parser
//! and the serializer so that their accept/reject decisions stay symmetric,
//! together with the byte-to-character view of a wire input.

use vstd::prelude::*;

verus! {

/// The wire format is ASCII: every input byte is read as the character with
/// the same code. Bytes above 0x7F decode to characters that no grammar
/// class accepts, so they are rejected wherever they appear.
pub open spec fn decoded(bs: Seq<u8>) -> Seq<char> {
    Seq::new(bs.len(), |i: int| bs[i] as char)
}

/// Optional horizontal whitespace: space or tab, never any other control
/// character.
pub open spec fn ows_char(c: char) -> bool {
    c == ' ' || c == '\t'
}

pub open spec fn digit_char(c: char) -> bool {
    0x30 <= c as int <= 0x39
}

pub open spec fn lcalpha_char(c: char) -> bool {
    0x61 <= c as int <= 0x7a
}

pub open spec fn alpha_char(c: char) -> bool {
    0x41 <= c as int <= 0x5a || 0x61 <= c as int <= 0x7a
}

/// First character of a parameter or dictionary key: lowercase alpha or `*`.
pub open spec fn key_start_char(c: char) -> bool {
    lcalpha_char(c) || c == '*'
}

/// Continuation character of a key: lowercase alpha, digit, `_`, `-`, `.`
/// or `*`.
pub open spec fn key_char(c: char) -> bool {
    lcalpha_char(c) || digit_char(c) || c == '_' || c == '-' || c == '.' || c == '*'
}

/// First character of a token: alpha or `*`.
pub open spec fn token_start_char(c: char) -> bool {
    alpha_char(c) || c == '*'
}

/// Continuation character of a token: the HTTP token character set plus `:`
/// and `/`.
pub open spec fn token_char(c: char) -> bool {
    alpha_char(c) || digit_char(c) || c == '!' || c == '#' || c == '$' || c == '%' || c == '&'
        || c == '\'' || c == '*' || c == '+' || c == '-' || c == '.' || c == '^' || c == '_'
        || c == '`' || c == '|' || c == '~' || c == ':' || c == '/'
}

/// A character of the base64 alphabet, including the padding character.
pub open spec fn base64_char(c: char) -> bool {
    alpha_char(c) || digit_char(c) || c == '+' || c == '/' || c == '='
}

/// Printable ASCII, the only characters allowed inside a string.
pub open spec fn printable_char(c: char) -> bool {
    0x20 <= c as int <= 0x7e
}

pub fn is_ows(b: u8) -> (r: bool)
    ensures
        r == ows_char(b as char),
{
    b == 0x20 || b == 0x09
}

pub fn is_digit(b: u8) -> (r: bool)
    ensures
        r == digit_char(b as char),
{
    0x30 <= b && b <= 0x39
}

pub fn is_lcalpha(b: u8) -> (r: bool)
    ensures
        r == lcalpha_char(b as char),
{
    0x61 <= b && b <= 0x7a
}

pub fn is_alpha(b: u8) -> (r: bool)
    ensures
        r == alpha_char(b as char),
{
    (0x41 <= b && b <= 0x5a) || (0x61 <= b && b <= 0x7a)
}

pub fn is_key_start(b: u8) -> (r: bool)
    ensures
        r == key_start_char(b as char),
{
    is_lcalpha(b) || b == 0x2a
}

pub fn is_key_char(b: u8) -> (r: bool)
    ensures
        r == key_char(b as char),
{
    is_lcalpha(b) || is_digit(b) || b == 0x5f || b == 0x2d || b == 0x2e || b == 0x2a
}

pub fn is_token_start(b: u8) -> (r: bool)
    ensures
        r == token_start_char(b as char),
{
    is_alpha(b) || b == 0x2a
}

pub fn is_token_char(b: u8) -> (r: bool)
    ensures
        r == token_char(b as char),
{
    is_alpha(b) || is_digit(b) || b == 0x21 || b == 0x23 || b == 0x24 || b == 0x25 || b == 0x26
        || b == 0x27 || b == 0x2a || b == 0x2b || b == 0x2d || b == 0x2e || b == 0x5e || b == 0x5f
        || b == 0x60 || b == 0x7c || b == 0x7e || b == 0x3a || b == 0x2f
}

pub fn is_base64_char(b: u8) -> (r: bool)
    ensures
        r == base64_char(b as char),
{
    is_alpha(b) || is_digit(b) || b == 0x2b || b == 0x2f || b == 0x3d
}

pub fn is_printable(b: u8) -> (r: bool)
    ensures
        r == printable_char(b as char),
{
    0x20 <= b && b <= 0x7e
}

pub fn char_is_key_start(c: char) -> (r: bool)
    ensures
        r == key_start_char(c),
{
    let u = c as u32;
    if u <= 0x7e {
        is_key_start(u as u8)
    } else {
        false
    }
}

pub fn char_is_key_char(c: char) -> (r: bool)
    ensures
        r == key_char(c),
{
    let u = c as u32;
    if u <= 0x7e {
        is_key_char(u as u8)
    } else {
        false
    }
}

pub fn char_is_token_start(c: char) -> (r: bool)
    ensures
        r == token_start_char(c),
{
    let u = c as u32;
    if u <= 0x7e {
        is_token_start(u as u8)
    } else {
        false
    }
}

pub fn char_is_token_char(c: char) -> (r: bool)
    ensures
        r == token_char(c),
{
    let u = c as u32;
    if u <= 0x7e {
        is_token_char(u as u8)
    } else {
        false
    }
}

pub fn char_is_printable(c: char) -> (r: bool)
    ensures
        r == printable_char(c),
{
    let u = c as u32;
    0x20 <= u && u <= 0x7e
}

/// Index of the first character at or after `i` that is not horizontal
/// whitespace.
pub open spec fn ows_end(cs: Seq<char>, i: int) -> int
    decreases cs.len() - i when 0 <= i <= cs.len()
{
    if i < cs.len() && ows_char(cs[i]) {
        ows_end(cs, i + 1)
    } else {
        i
    }
}

pub proof fn lemma_ows_end(cs: Seq<char>, i: int)
    requires
        0 <= i <= cs.len(),
    ensures
        i <= ows_end(cs, i) <= cs.len(),
    decreases cs.len() - i,
{
    if i < cs.len() && ows_char(cs[i]) {
        lemma_ows_end(cs, i + 1);
    }
}

/// Advances a cursor over the input past horizontal whitespace.
pub fn skip_ows(s: &[u8], i: usize) -> (j: usize)
    requires
        i <= s@.len(),
    ensures
        j == ows_end(decoded(s@), i as int),
        i <= j <= s@.len(),
{
    let ghost cs = decoded(s@);
    let mut j: usize = i;
    loop
        invariant
            i <= j <= s@.len(),
            cs == decoded(s@),
            ows_end(cs, i as int) == ows_end(cs, j as int),
        ensures
            i <= j <= s@.len(),
            j == ows_end(cs, i as int),
        decreases s@.len() - j,
    {
        if j < s.len() && is_ows(s[j]) {
            assert(ows_end(cs, j as int) == ows_end(cs, j + 1));
            j = j + 1;
        } else {
            assert(ows_end(cs, j as int) == j as int);
            break;
        }
    }
    j
}

/// Appends one character to an output buffer.
///
/// Relies on `String::push` of std: appends the given `char` to the end of
/// the `String`.
#[verifier::external_body]
pub(crate) fn push_char(s: &mut String, c: char)
    ensures
        final(s)@ == old(s)@.push(c),
{
    s.push(c);
}

} // verus!
