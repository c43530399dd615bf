//! The grammar of structured field values, written as mathematical parsing
//! functions over the decoded input. The functions `sp_*` consume from a
//! cursor position and yield the parsed model value together with the
//! position after it, or `None` when the input violates the grammar; the
//! executable parser is proved to return exactly what they describe.

use vstd::prelude::*;

use crate::serializer::pow10;
use crate::utils::{
    base64_char, digit_char, key_char, key_start_char, ows_char, ows_end, printable_char,
    token_char, token_start_char,
};
use crate::utils::lemma_ows_end;
use crate::values::{lemma_map_insert_unique, map_insert, map_keys_unique, BareItemV, DecimalV,
    InnerListV, ItemV, ListEntryV};

verus! {

/// Index of the first character at or after `i` that is not a digit.
pub open spec fn digit_end(cs: Seq<char>, i: int) -> int
    decreases cs.len() - i when 0 <= i <= cs.len()
{
    if i < cs.len() && digit_char(cs[i]) {
        digit_end(cs, i + 1)
    } else {
        i
    }
}

pub proof fn lemma_digit_end(cs: Seq<char>, i: int)
    requires
        0 <= i <= cs.len(),
    ensures
        i <= digit_end(cs, i) <= cs.len(),
        forall|k: int| i <= k < digit_end(cs, i) ==> digit_char(cs[k]),
    decreases cs.len() - i,
{
    if i < cs.len() && digit_char(cs[i]) {
        lemma_digit_end(cs, i + 1);
    }
}

/// Index of the first character at or after `i` that is not a token
/// character.
pub open spec fn token_end(cs: Seq<char>, i: int) -> int
    decreases cs.len() - i when 0 <= i <= cs.len()
{
    if i < cs.len() && token_char(cs[i]) {
        token_end(cs, i + 1)
    } else {
        i
    }
}

pub proof fn lemma_token_end(cs: Seq<char>, i: int)
    requires
        0 <= i <= cs.len(),
    ensures
        i <= token_end(cs, i) <= cs.len(),
    decreases cs.len() - i,
{
    if i < cs.len() && token_char(cs[i]) {
        lemma_token_end(cs, i + 1);
    }
}

/// Index of the first character at or after `i` that is not a key
/// character.
pub open spec fn key_end(cs: Seq<char>, i: int) -> int
    decreases cs.len() - i when 0 <= i <= cs.len()
{
    if i < cs.len() && key_char(cs[i]) {
        key_end(cs, i + 1)
    } else {
        i
    }
}

pub proof fn lemma_key_end(cs: Seq<char>, i: int)
    requires
        0 <= i <= cs.len(),
    ensures
        i <= key_end(cs, i) <= cs.len(),
    decreases cs.len() - i,
{
    if i < cs.len() && key_char(cs[i]) {
        lemma_key_end(cs, i + 1);
    }
}

/// Index of the first character at or after `i` that is not of the base64
/// alphabet.
pub open spec fn b64_end(cs: Seq<char>, i: int) -> int
    decreases cs.len() - i when 0 <= i <= cs.len()
{
    if i < cs.len() && base64_char(cs[i]) {
        b64_end(cs, i + 1)
    } else {
        i
    }
}

pub proof fn lemma_b64_end(cs: Seq<char>, i: int)
    requires
        0 <= i <= cs.len(),
    ensures
        i <= b64_end(cs, i) <= cs.len(),
    decreases cs.len() - i,
{
    if i < cs.len() && base64_char(cs[i]) {
        lemma_b64_end(cs, i + 1);
    }
}

/// The value of the run of digits in `[i, j)`.
pub open spec fn digits_val(cs: Seq<char>, i: int, j: int) -> int
    decreases j - i when i <= j
{
    if i >= j {
        0
    } else {
        digits_val(cs, i, j - 1) * 10 + (cs[j - 1] as int - 0x30)
    }
}

pub proof fn lemma_digits_val_bounds(cs: Seq<char>, i: int, j: int)
    requires
        0 <= i <= j <= cs.len(),
        forall|k: int| i <= k < j ==> digit_char(cs[k]),
    ensures
        0 <= digits_val(cs, i, j) < pow10((j - i) as nat),
    decreases j - i,
{
    if i < j {
        lemma_digits_val_bounds(cs, i, j - 1);
        assert(pow10((j - i) as nat) == 10 * pow10((j - i - 1) as nat));
    }
}

/// A number: an optional `-`, 1 to 15 integer digits, and optionally a `.`
/// followed by 1 to 3 fractional digits (with at most 12 integer digits
/// then). Exceeding a digit bound, or a `.` not followed by a digit, is a
/// hard failure.
pub open spec fn sp_number(cs: Seq<char>, i: int) -> Option<(BareItemV, int)> {
    let neg = i < cs.len() && cs[i] == '-';
    let i1 = if neg {
        i + 1
    } else {
        i
    };
    let j = digit_end(cs, i1);
    if j == i1 {
        None
    } else if j < cs.len() && cs[j] == '.' {
        if j - i1 > 12 {
            None
        } else {
            let k = digit_end(cs, j + 1);
            let f = k - (j + 1);
            if f < 1 || f > 3 {
                None
            } else {
                Some(
                    (
                        BareItemV::Decimal(
                            DecimalV {
                                neg,
                                mantissa: (digits_val(cs, i1, j) * pow10(f as nat) + digits_val(
                                    cs,
                                    j + 1,
                                    k,
                                )) as nat,
                                scale: f as nat,
                            },
                        ),
                        k,
                    ),
                )
            }
        }
    } else {
        if j - i1 > 15 {
            None
        } else {
            let v = digits_val(cs, i1, j);
            Some(
                (
                    BareItemV::Integer(
                        if neg {
                            -v
                        } else {
                            v
                        },
                    ),
                    j,
                ),
            )
        }
    }
}

pub proof fn lemma_sp_number(cs: Seq<char>, i: int)
    requires
        0 <= i <= cs.len(),
    ensures
        sp_number(cs, i) is Some ==> i < sp_number(cs, i).unwrap().1 <= cs.len(),
{
    let neg = i < cs.len() && cs[i] == '-';
    let i1 = if neg {
        i + 1
    } else {
        i
    };
    if i1 <= cs.len() {
        lemma_digit_end(cs, i1);
        let j = digit_end(cs, i1);
        if j < cs.len() && cs[j] == '.' {
            lemma_digit_end(cs, j + 1);
        }
    }
}

/// The characters of a string: printable ASCII between double quotes, `\`
/// only as the start of a two-character escape of `"` or `\`; the stored
/// value is unescaped. `acc` holds what was read so far.
pub open spec fn sp_string_body(cs: Seq<char>, i: int, acc: Seq<char>) -> Option<(Seq<char>, int)>
    decreases cs.len() - i when 0 <= i <= cs.len()
{
    if i >= cs.len() {
        None
    } else if cs[i] == '"' {
        Some((acc, i + 1))
    } else if cs[i] == '\\' {
        if i + 1 < cs.len() && (cs[i + 1] == '"' || cs[i + 1] == '\\') {
            sp_string_body(cs, i + 2, acc.push(cs[i + 1]))
        } else {
            None
        }
    } else if printable_char(cs[i]) {
        sp_string_body(cs, i + 1, acc.push(cs[i]))
    } else {
        None
    }
}

pub proof fn lemma_sp_string_body(cs: Seq<char>, i: int, acc: Seq<char>)
    requires
        0 <= i <= cs.len(),
    ensures
        sp_string_body(cs, i, acc) is Some ==> i < sp_string_body(cs, i, acc).unwrap().1
            <= cs.len(),
    decreases cs.len() - i,
{
    if i < cs.len() {
        if cs[i] == '\\' {
            if i + 1 < cs.len() && (cs[i + 1] == '"' || cs[i + 1] == '\\') {
                lemma_sp_string_body(cs, i + 2, acc.push(cs[i + 1]));
            }
        } else if cs[i] != '"' && printable_char(cs[i]) {
            lemma_sp_string_body(cs, i + 1, acc.push(cs[i]));
        }
    }
}

/// A string: `"`, its characters, `"`.
pub open spec fn sp_string(cs: Seq<char>, i: int) -> Option<(Seq<char>, int)> {
    if i < cs.len() && cs[i] == '"' {
        sp_string_body(cs, i + 1, Seq::<char>::empty())
    } else {
        None
    }
}

/// A token: alpha or `*`, then token characters, ended by the first
/// character outside the set.
pub open spec fn sp_token(cs: Seq<char>, i: int) -> Option<(BareItemV, int)> {
    if i < cs.len() && token_start_char(cs[i]) {
        let j = token_end(cs, i + 1);
        Some((BareItemV::Token(cs.subrange(i, j)), j))
    } else {
        None
    }
}

/// A boolean: `?` followed by exactly `0` or `1`.
pub open spec fn sp_boolean(cs: Seq<char>, i: int) -> Option<(BareItemV, int)> {
    if i < cs.len() && cs[i] == '?' && i + 1 < cs.len() && (cs[i + 1] == '0' || cs[i + 1] == '1') {
        Some((BareItemV::Boolean(cs[i + 1] == '1'), i + 2))
    } else {
        None
    }
}

/// The sextet of one base64 character, -1 outside the alphabet.
pub open spec fn sextet_of(c: char) -> int {
    if 0x41 <= c as int <= 0x5a {
        c as int - 0x41
    } else if 0x61 <= c as int <= 0x7a {
        c as int - 0x61 + 26
    } else if 0x30 <= c as int <= 0x39 {
        c as int - 0x30 + 52
    } else if c == '+' {
        62
    } else if c == '/' {
        63
    } else {
        -1
    }
}

/// One base64 group of four characters. Padding may appear only in the
/// last group, and the unused bits of the final sextet must be zero.
pub open spec fn b64_group(c0: char, c1: char, c2: char, c3: char, last: bool) -> Option<Seq<u8>> {
    let s0 = sextet_of(c0);
    let s1 = sextet_of(c1);
    if s0 < 0 || s1 < 0 {
        None
    } else if c2 == '=' {
        if last && c3 == '=' && s1 % 16 == 0 {
            Some(seq![(s0 * 4 + s1 / 16) as u8])
        } else {
            None
        }
    } else if c3 == '=' {
        let s2 = sextet_of(c2);
        if last && s2 >= 0 && s2 % 4 == 0 {
            Some(seq![(s0 * 4 + s1 / 16) as u8, ((s1 % 16) * 16 + s2 / 4) as u8])
        } else {
            None
        }
    } else {
        let s2 = sextet_of(c2);
        let s3 = sextet_of(c3);
        if s2 >= 0 && s3 >= 0 {
            Some(
                seq![
                    (s0 * 4 + s1 / 16) as u8,
                    ((s1 % 16) * 16 + s2 / 4) as u8,
                    ((s2 % 4) * 64 + s3) as u8,
                ],
            )
        } else {
            None
        }
    }
}

/// Base64 decoding with padding: the length must be a multiple of four.
pub open spec fn b64_decode(s: Seq<char>) -> Option<Seq<u8>>
    decreases s.len(),
{
    if s.len() == 0 {
        Some(Seq::<u8>::empty())
    } else if s.len() % 4 != 0 {
        None
    } else {
        match b64_group(s[0], s[1], s[2], s[3], s.len() == 4) {
            None => None,
            Some(bs) => match b64_decode(s.skip(4)) {
                None => None,
                Some(rest) => Some(bs + rest),
            },
        }
    }
}

/// A byte sequence: base64 between `:` delimiters.
pub open spec fn sp_byteseq(cs: Seq<char>, i: int) -> Option<(BareItemV, int)> {
    if i < cs.len() && cs[i] == ':' {
        let j = b64_end(cs, i + 1);
        if j < cs.len() && cs[j] == ':' {
            match b64_decode(cs.subrange(i + 1, j)) {
                None => None,
                Some(bs) => Some((BareItemV::ByteSeq(bs), j + 1)),
            }
        } else {
            None
        }
    } else {
        None
    }
}

/// A bare item, dispatched on its first significant character: digit or `-`
/// for a number, `"` for a string, `:` for a byte sequence, `?` for a
/// boolean, alpha or `*` for a token.
pub open spec fn sp_bare_item(cs: Seq<char>, i: int) -> Option<(BareItemV, int)> {
    if i >= cs.len() {
        None
    } else if cs[i] == '-' || digit_char(cs[i]) {
        sp_number(cs, i)
    } else if cs[i] == '"' {
        match sp_string(cs, i) {
            None => None,
            Some((s, j)) => Some((BareItemV::String(s), j)),
        }
    } else if cs[i] == ':' {
        sp_byteseq(cs, i)
    } else if cs[i] == '?' {
        sp_boolean(cs, i)
    } else if token_start_char(cs[i]) {
        sp_token(cs, i)
    } else {
        None
    }
}

pub proof fn lemma_sp_bare_item(cs: Seq<char>, i: int)
    requires
        0 <= i <= cs.len(),
    ensures
        sp_bare_item(cs, i) is Some ==> i < sp_bare_item(cs, i).unwrap().1 <= cs.len(),
{
    if i < cs.len() {
        lemma_sp_number(cs, i);
        lemma_sp_string_body(cs, i + 1, Seq::<char>::empty());
        lemma_token_end(cs, i + 1);
        lemma_b64_end(cs, i + 1);
    }
}

/// A key: lowercase alpha or `*`, then key characters.
pub open spec fn sp_key(cs: Seq<char>, i: int) -> Option<(Seq<char>, int)> {
    if i < cs.len() && key_start_char(cs[i]) {
        let j = key_end(cs, i + 1);
        Some((cs.subrange(i, j), j))
    } else {
        None
    }
}

pub proof fn lemma_sp_key(cs: Seq<char>, i: int)
    requires
        0 <= i <= cs.len(),
    ensures
        sp_key(cs, i) is Some ==> i < sp_key(cs, i).unwrap().1 <= cs.len(),
{
    if i < cs.len() {
        lemma_key_end(cs, i + 1);
    }
}

/// Parameters: zero or more `;`, each followed by optional whitespace, a
/// key, and an optional `=` with a bare item; a key without `=` holds
/// boolean true. A repeated key updates the value in place. `acc` holds
/// what was read so far.
pub open spec fn sp_params(
    cs: Seq<char>,
    i: int,
    acc: Seq<(Seq<char>, BareItemV)>,
) -> Option<(Seq<(Seq<char>, BareItemV)>, int)>
    decreases cs.len() - i when 0 <= i <= cs.len()
{
    if i < cs.len() && cs[i] == ';' {
        let i1 = ows_end(cs, i + 1);
        proof {
            lemma_ows_end(cs, i + 1);
            lemma_sp_key(cs, ows_end(cs, i + 1));
        }
        match sp_key(cs, i1) {
            None => None,
            Some((k, i2)) => if i2 < cs.len() && cs[i2] == '=' {
                proof {
                    lemma_sp_bare_item(cs, i2 + 1);
                }
                match sp_bare_item(cs, i2 + 1) {
                    None => None,
                    Some((v, i3)) => sp_params(cs, i3, map_insert(acc, k, v)),
                }
            } else {
                sp_params(cs, i2, map_insert(acc, k, BareItemV::Boolean(true)))
            },
        }
    } else {
        Some((acc, i))
    }
}

pub proof fn lemma_sp_params(cs: Seq<char>, i: int, acc: Seq<(Seq<char>, BareItemV)>)
    requires
        0 <= i <= cs.len(),
    ensures
        sp_params(cs, i, acc) is Some ==> i <= sp_params(cs, i, acc).unwrap().1 <= cs.len(),
    decreases cs.len() - i,
{
    if i < cs.len() && cs[i] == ';' {
        lemma_ows_end(cs, i + 1);
        let i1 = ows_end(cs, i + 1);
        lemma_sp_key(cs, i1);
        match sp_key(cs, i1) {
            None => {},
            Some((k, i2)) => {
                if i2 < cs.len() && cs[i2] == '=' {
                    lemma_sp_bare_item(cs, i2 + 1);
                    match sp_bare_item(cs, i2 + 1) {
                        None => {},
                        Some((v, i3)) => {
                            lemma_sp_params(cs, i3, map_insert(acc, k, v));
                        },
                    }
                } else {
                    lemma_sp_params(cs, i2, map_insert(acc, k, BareItemV::Boolean(true)));
                }
            },
        }
    }
}

/// An item: a bare item, then its parameters.
pub open spec fn sp_item(cs: Seq<char>, i: int) -> Option<(ItemV, int)> {
    match sp_bare_item(cs, i) {
        None => None,
        Some((b, j)) => match sp_params(cs, j, Seq::<(Seq<char>, BareItemV)>::empty()) {
            None => None,
            Some((ps, k)) => Some((ItemV { bare_item: b, params: ps }, k)),
        },
    }
}

pub proof fn lemma_sp_item(cs: Seq<char>, i: int)
    requires
        0 <= i <= cs.len(),
    ensures
        sp_item(cs, i) is Some ==> i < sp_item(cs, i).unwrap().1 <= cs.len(),
{
    lemma_sp_bare_item(cs, i);
    match sp_bare_item(cs, i) {
        None => {},
        Some((b, j)) => {
            lemma_sp_params(cs, j, Seq::<(Seq<char>, BareItemV)>::empty());
        },
    }
}

/// The items of an inner list, read until the closing `)`: optional
/// whitespace before each item and before the `)`; after an item, a space
/// or the `)` must follow. `acc` holds what was read so far.
pub open spec fn sp_inner_items(cs: Seq<char>, i: int, acc: Seq<ItemV>) -> Option<
    (Seq<ItemV>, int),
>
    decreases cs.len() - i when 0 <= i <= cs.len()
{
    let i1 = ows_end(cs, i);
    proof {
        lemma_ows_end(cs, i);
        lemma_sp_item(cs, ows_end(cs, i));
    }
    if i1 >= cs.len() {
        None
    } else if cs[i1] == ')' {
        Some((acc, i1 + 1))
    } else {
        match sp_item(cs, i1) {
            None => None,
            Some((it, j)) => if j < cs.len() && (ows_char(cs[j]) || cs[j] == ')') {
                sp_inner_items(cs, j, acc.push(it))
            } else {
                None
            },
        }
    }
}

pub proof fn lemma_sp_inner_items(cs: Seq<char>, i: int, acc: Seq<ItemV>)
    requires
        0 <= i <= cs.len(),
    ensures
        sp_inner_items(cs, i, acc) is Some ==> i < sp_inner_items(cs, i, acc).unwrap().1
            <= cs.len(),
    decreases cs.len() - i,
{
    lemma_ows_end(cs, i);
    let i1 = ows_end(cs, i);
    if i1 < cs.len() && cs[i1] != ')' {
        lemma_sp_item(cs, i1);
        match sp_item(cs, i1) {
            None => {},
            Some((it, j)) => {
                if j < cs.len() && (ows_char(cs[j]) || cs[j] == ')') {
                    lemma_sp_inner_items(cs, j, acc.push(it));
                }
            },
        }
    }
}

/// An inner list: `(`, items, `)`, then its own parameters.
pub open spec fn sp_inner_list(cs: Seq<char>, i: int) -> Option<(InnerListV, int)> {
    if i < cs.len() && cs[i] == '(' {
        match sp_inner_items(cs, i + 1, Seq::<ItemV>::empty()) {
            None => None,
            Some((items, j)) => match sp_params(cs, j, Seq::<(Seq<char>, BareItemV)>::empty()) {
                None => None,
                Some((ps, k)) => Some((InnerListV { items, params: ps }, k)),
            },
        }
    } else {
        None
    }
}

pub proof fn lemma_sp_inner_list(cs: Seq<char>, i: int)
    requires
        0 <= i <= cs.len(),
    ensures
        sp_inner_list(cs, i) is Some ==> i < sp_inner_list(cs, i).unwrap().1 <= cs.len(),
{
    if i < cs.len() && cs[i] == '(' {
        lemma_sp_inner_items(cs, i + 1, Seq::<ItemV>::empty());
        match sp_inner_items(cs, i + 1, Seq::<ItemV>::empty()) {
            None => {},
            Some((items, j)) => {
                lemma_sp_params(cs, j, Seq::<(Seq<char>, BareItemV)>::empty());
            },
        }
    }
}

/// A list or dictionary member: an inner list where `(` follows, an item
/// otherwise.
pub open spec fn sp_list_entry(cs: Seq<char>, i: int) -> Option<(ListEntryV, int)> {
    if i < cs.len() && cs[i] == '(' {
        match sp_inner_list(cs, i) {
            None => None,
            Some((l, j)) => Some((ListEntryV::InnerList(l), j)),
        }
    } else {
        match sp_item(cs, i) {
            None => None,
            Some((it, j)) => Some((ListEntryV::Item(it), j)),
        }
    }
}

pub proof fn lemma_sp_list_entry(cs: Seq<char>, i: int)
    requires
        0 <= i <= cs.len(),
    ensures
        sp_list_entry(cs, i) is Some ==> i < sp_list_entry(cs, i).unwrap().1 <= cs.len(),
{
    lemma_sp_inner_list(cs, i);
    lemma_sp_item(cs, i);
}

/// The members of a list from the first member on: members separated by a
/// comma with optional whitespace around it; a trailing comma is a
/// failure. Consumes the whole input. `acc` holds what was read so far.
pub open spec fn sp_list_rest(cs: Seq<char>, i: int, acc: Seq<ListEntryV>) -> Option<
    Seq<ListEntryV>,
>
    decreases cs.len() - i when 0 <= i <= cs.len()
{
    match sp_list_entry(cs, i) {
        None => None,
        Some((e, j)) => {
            proof {
                lemma_sp_list_entry(cs, i);
                lemma_ows_end(cs, j);
            }
            let k = ows_end(cs, j);
            if k >= cs.len() {
                Some(acc.push(e))
            } else if cs[k] == ',' {
                proof {
                    lemma_ows_end(cs, k + 1);
                }
                let m = ows_end(cs, k + 1);
                if m >= cs.len() {
                    None
                } else {
                    sp_list_rest(cs, m, acc.push(e))
                }
            } else {
                None
            }
        },
    }
}

/// A list: empty or all-whitespace input yields the empty list; otherwise
/// its members, which must consume the whole input.
pub open spec fn sp_list(cs: Seq<char>) -> Option<Seq<ListEntryV>> {
    let i0 = ows_end(cs, 0);
    if i0 >= cs.len() {
        Some(Seq::<ListEntryV>::empty())
    } else {
        sp_list_rest(cs, i0, Seq::<ListEntryV>::empty())
    }
}

/// One dictionary member: a key, then either `=` and a member value, or
/// parameters of an implicit boolean-true item.
pub open spec fn sp_dict_member(cs: Seq<char>, i: int) -> Option<((Seq<char>, ListEntryV), int)> {
    match sp_key(cs, i) {
        None => None,
        Some((k, j)) => if j < cs.len() && cs[j] == '=' {
            match sp_list_entry(cs, j + 1) {
                None => None,
                Some((e, m)) => Some(((k, e), m)),
            }
        } else {
            match sp_params(cs, j, Seq::<(Seq<char>, BareItemV)>::empty()) {
                None => None,
                Some((ps, m)) => Some(
                    ((k, ListEntryV::Item(ItemV { bare_item: BareItemV::Boolean(true), params: ps })), m),
                ),
            }
        },
    }
}

pub proof fn lemma_sp_dict_member(cs: Seq<char>, i: int)
    requires
        0 <= i <= cs.len(),
    ensures
        sp_dict_member(cs, i) is Some ==> i < sp_dict_member(cs, i).unwrap().1 <= cs.len(),
{
    lemma_sp_key(cs, i);
    match sp_key(cs, i) {
        None => {},
        Some((k, j)) => {
            if j < cs.len() && cs[j] == '=' {
                lemma_sp_list_entry(cs, j + 1);
            } else {
                lemma_sp_params(cs, j, Seq::<(Seq<char>, BareItemV)>::empty());
            }
        },
    }
}

/// The members of a dictionary from the first member on, in order and with
/// duplicates kept; a trailing comma is a failure. Consumes the whole
/// input. `acc` holds what was read so far.
pub open spec fn sp_dict_members(cs: Seq<char>, i: int, acc: Seq<(Seq<char>, ListEntryV)>)
    -> Option<Seq<(Seq<char>, ListEntryV)>>
    decreases cs.len() - i when 0 <= i <= cs.len()
{
    match sp_dict_member(cs, i) {
        None => None,
        Some((kv, j)) => {
            proof {
                lemma_sp_dict_member(cs, i);
                lemma_ows_end(cs, j);
            }
            let k = ows_end(cs, j);
            if k >= cs.len() {
                Some(acc.push(kv))
            } else if cs[k] == ',' {
                proof {
                    lemma_ows_end(cs, k + 1);
                }
                let m = ows_end(cs, k + 1);
                if m >= cs.len() {
                    None
                } else {
                    sp_dict_members(cs, m, acc.push(kv))
                }
            } else {
                None
            }
        },
    }
}

/// The raw member list of a dictionary: empty for empty or all-whitespace
/// input.
pub open spec fn sp_dict_member_list(cs: Seq<char>) -> Option<Seq<(Seq<char>, ListEntryV)>> {
    let i0 = ows_end(cs, 0);
    if i0 >= cs.len() {
        Some(Seq::<(Seq<char>, ListEntryV)>::empty())
    } else {
        sp_dict_members(cs, i0, Seq::<(Seq<char>, ListEntryV)>::empty())
    }
}

/// Folds raw members into a base map, in order, with update-in-place
/// semantics for keys already present.
pub open spec fn fold_inserts(
    base: Seq<(Seq<char>, ListEntryV)>,
    members: Seq<(Seq<char>, ListEntryV)>,
) -> Seq<(Seq<char>, ListEntryV)>
    decreases members.len(),
{
    if members.len() == 0 {
        base
    } else {
        map_insert(fold_inserts(base, members.drop_last()), members.last().0, members.last().1)
    }
}

/// A dictionary parsed on top of an existing one: members inserted in
/// order, a repeated key updating the value in place.
pub open spec fn sp_dictionary_from(cs: Seq<char>, base: Seq<(Seq<char>, ListEntryV)>) -> Option<
    Seq<(Seq<char>, ListEntryV)>,
> {
    match sp_dict_member_list(cs) {
        None => None,
        Some(ms) => Some(fold_inserts(base, ms)),
    }
}

/// A dictionary parsed from scratch.
pub open spec fn sp_dictionary(cs: Seq<char>) -> Option<Seq<(Seq<char>, ListEntryV)>> {
    sp_dictionary_from(cs, Seq::<(Seq<char>, ListEntryV)>::empty())
}

/// Every key of parameters produced by parsing is unique, provided the
/// keys accumulated so far are: a repeated key on the wire updates the
/// existing slot instead of adding one.
pub proof fn lemma_sp_params_unique(cs: Seq<char>, i: int, acc: Seq<(Seq<char>, BareItemV)>)
    requires
        0 <= i <= cs.len(),
        map_keys_unique(acc),
    ensures
        sp_params(cs, i, acc) is Some ==> map_keys_unique(sp_params(cs, i, acc).unwrap().0),
    decreases cs.len() - i,
{
    if i < cs.len() && cs[i] == ';' {
        lemma_ows_end(cs, i + 1);
        let i1 = ows_end(cs, i + 1);
        lemma_sp_key(cs, i1);
        match sp_key(cs, i1) {
            None => {},
            Some((k, i2)) => {
                if i2 < cs.len() && cs[i2] == '=' {
                    lemma_sp_bare_item(cs, i2 + 1);
                    match sp_bare_item(cs, i2 + 1) {
                        None => {},
                        Some((v, i3)) => {
                            lemma_map_insert_unique(acc, k, v);
                            lemma_sp_params_unique(cs, i3, map_insert(acc, k, v));
                        },
                    }
                } else {
                    lemma_map_insert_unique(acc, k, BareItemV::Boolean(true));
                    lemma_sp_params_unique(cs, i2, map_insert(acc, k, BareItemV::Boolean(true)));
                }
            },
        }
    }
}

/// Folding members into a key-unique map keeps its keys unique.
pub proof fn lemma_fold_inserts_unique(
    base: Seq<(Seq<char>, ListEntryV)>,
    members: Seq<(Seq<char>, ListEntryV)>,
)
    requires
        map_keys_unique(base),
    ensures
        map_keys_unique(fold_inserts(base, members)),
    decreases members.len(),
{
    if members.len() > 0 {
        lemma_fold_inserts_unique(base, members.drop_last());
        lemma_map_insert_unique(
            fold_inserts(base, members.drop_last()),
            members.last().0,
            members.last().1,
        );
    }
}

/// Every key of a parsed dictionary is unique, provided the dictionary
/// parsed into has unique keys: a repeated member name on the wire updates
/// the existing slot, at the position where the name first appeared.
pub proof fn lemma_sp_dictionary_unique(cs: Seq<char>, base: Seq<(Seq<char>, ListEntryV)>)
    requires
        map_keys_unique(base),
    ensures
        sp_dictionary_from(cs, base) is Some ==> map_keys_unique(
            sp_dictionary_from(cs, base).unwrap(),
        ),
{
    match sp_dict_member_list(cs) {
        None => {},
        Some(ms) => {
            lemma_fold_inserts_unique(base, ms);
        },
    }
}

/// An input of nothing but horizontal whitespace (or nothing at all)
/// parses as the empty list and as the empty dictionary; this is the only
/// way a top-level parse yields zero members.
pub proof fn lemma_all_whitespace_empty(cs: Seq<char>)
    requires
        forall|k: int| 0 <= k < cs.len() ==> ows_char(cs[k]),
    ensures
        sp_list(cs) == Some(Seq::<ListEntryV>::empty()),
        sp_dictionary(cs) == Some(Seq::<(Seq<char>, ListEntryV)>::empty()),
{
    lemma_ows_end_all(cs, 0);
    assert(fold_inserts(
        Seq::<(Seq<char>, ListEntryV)>::empty(),
        Seq::<(Seq<char>, ListEntryV)>::empty(),
    ) == Seq::<(Seq<char>, ListEntryV)>::empty());
}

proof fn lemma_ows_end_all(cs: Seq<char>, i: int)
    requires
        0 <= i <= cs.len(),
        forall|k: int| i <= k < cs.len() ==> ows_char(cs[k]),
    ensures
        ows_end(cs, i) == cs.len(),
    decreases cs.len() - i,
{
    if i < cs.len() {
        lemma_ows_end_all(cs, i + 1);
    }
}

/// A whole field holding one item: optional whitespace around the item,
/// nothing else.
pub open spec fn sp_item_field(cs: Seq<char>) -> Option<ItemV> {
    let i0 = ows_end(cs, 0);
    match sp_item(cs, i0) {
        None => None,
        Some((it, j)) => if ows_end(cs, j) >= cs.len() {
            Some(it)
        } else {
            None
        },
    }
}

} // verus!
