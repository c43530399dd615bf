//! The serializer: emits the one canonical textual encoding of a model
//! value, or fails when the value violates a grammar constraint that only
//! serialization enforces (values built directly rather than parsed).
//!
//! The functions `sz_*` are the specification of the canonical form; each
//! executable writer is proved to emit exactly what they describe.

use vstd::arithmetic::div_mod::*;
use vstd::arithmetic::mul::*;
use vstd::prelude::*;

use crate::utils::{
    char_is_key_char, char_is_key_start, char_is_printable, char_is_token_char,
    char_is_token_start, key_char, key_start_char, printable_char, push_char, token_char,
    token_start_char,
};
use crate::values::{
    lemma_params_view, BareItem, BareItemV, Decimal, DecimalV, InnerList, InnerListV, Item, ItemV,
    List, ListEntry, ListEntryV, Num, Parameters,
};

verus! {

/// 10 to the power `n`.
pub open spec fn pow10(n: nat) -> nat
    decreases n,
{
    if n == 0 {
        1
    } else {
        10 * pow10((n - 1) as nat)
    }
}

/// The character of one decimal digit.
pub open spec fn digit_of(n: int) -> char {
    ((0x30 + n) as u8) as char
}

/// The decimal digits of `n`, most significant first, no leading zeros
/// (a single `0` for zero).
pub open spec fn dec_digits(n: nat) -> Seq<char>
    decreases n,
{
    if n < 10 {
        seq![digit_of(n as int)]
    } else {
        dec_digits(n / 10).push(digit_of((n % 10) as int))
    }
}

/// The canonical form of an integer: `-` for negative values, then the
/// decimal digits of the magnitude.
pub open spec fn int_chars(i: int) -> Seq<char> {
    if i < 0 {
        seq!['-'] + dec_digits((-i) as nat)
    } else {
        dec_digits(i as nat)
    }
}

/// An integer serializes iff its magnitude has at most 15 digits.
pub open spec fn sz_integer(i: int) -> Option<Seq<char>> {
    if -999_999_999_999_999 <= i <= 999_999_999_999_999 {
        Some(int_chars(i))
    } else {
        None
    }
}

/// The mantissa rounded to exactly 3 fractional digits with
/// round-half-to-even: the value of `round3(m, s)` is
/// `m / 10^s` expressed in thousandths.
pub open spec fn round3(m: nat, s: nat) -> nat {
    if s <= 3 {
        m * pow10((3 - s) as nat)
    } else {
        let d = pow10((s - 3) as nat);
        let q = m / d;
        let r = m % d;
        if 2 * r > d {
            q + 1
        } else if 2 * r == d {
            if q % 2 == 0 {
                q
            } else {
                q + 1
            }
        } else {
            q
        }
    }
}

/// The fractional digits of a value in thousandths: trailing zeros dropped,
/// but at least one digit.
pub open spec fn frac_chars(f: nat) -> Seq<char> {
    let d100 = f / 100;
    let d10 = (f / 10) % 10;
    let d1 = f % 10;
    if d1 != 0 {
        seq![digit_of(d100 as int), digit_of(d10 as int), digit_of(d1 as int)]
    } else if d10 != 0 {
        seq![digit_of(d100 as int), digit_of(d10 as int)]
    } else {
        seq![digit_of(d100 as int)]
    }
}

/// A decimal is first rounded to 3 fractional digits (half to even); it
/// serializes iff the rounded integer part has at most 12 digits. A sign is
/// emitted only for a nonzero negative value.
pub open spec fn sz_decimal(d: DecimalV) -> Option<Seq<char>> {
    let m3 = round3(d.mantissa, d.scale);
    if m3 > 999_999_999_999_999 {
        None
    } else {
        let sign: Seq<char> = if d.neg && m3 > 0 {
            seq!['-']
        } else {
            Seq::<char>::empty()
        };
        Some(sign + dec_digits(m3 / 1000) + seq!['.'] + frac_chars(m3 % 1000))
    }
}

/// Every character printable ASCII.
pub open spec fn valid_string_chars(s: Seq<char>) -> bool {
    forall|i: int| 0 <= i < s.len() ==> printable_char(s[i])
}

/// `"` and `\` escaped with a preceding `\`; other characters verbatim.
pub open spec fn escaped(s: Seq<char>) -> Seq<char>
    decreases s.len(),
{
    if s.len() == 0 {
        Seq::<char>::empty()
    } else {
        escaped(s.drop_last()) + (if s.last() == '"' || s.last() == '\\' {
            seq!['\\', s.last()]
        } else {
            seq![s.last()]
        })
    }
}

/// A string serializes iff all its characters are printable ASCII; it is
/// wrapped in double quotes with `"` and `\` escaped.
pub open spec fn sz_string(s: Seq<char>) -> Option<Seq<char>> {
    if valid_string_chars(s) {
        Some(seq!['"'] + escaped(s) + seq!['"'])
    } else {
        None
    }
}

/// Nonempty, starting with alpha or `*`, continuing with token characters.
pub open spec fn valid_token(t: Seq<char>) -> bool {
    t.len() > 0 && token_start_char(t[0]) && forall|i: int| 1 <= i < t.len() ==> token_char(t[i])
}

/// A token serializes verbatim iff it satisfies the token constraint.
pub open spec fn sz_token(t: Seq<char>) -> Option<Seq<char>> {
    if valid_token(t) {
        Some(t)
    } else {
        None
    }
}

/// Nonempty, starting with lowercase alpha or `*`, continuing with key
/// characters.
pub open spec fn valid_key(k: Seq<char>) -> bool {
    k.len() > 0 && key_start_char(k[0]) && forall|i: int| 1 <= i < k.len() ==> key_char(k[i])
}

/// A key serializes verbatim iff it satisfies the key constraint.
pub open spec fn sz_key(k: Seq<char>) -> Option<Seq<char>> {
    if valid_key(k) {
        Some(k)
    } else {
        None
    }
}

/// The character of one base64 sextet.
pub open spec fn b64_char_of(n: int) -> char {
    if n < 26 {
        ((0x41 + n) as u8) as char
    } else if n < 52 {
        ((0x61 + (n - 26)) as u8) as char
    } else if n < 62 {
        ((0x30 + (n - 52)) as u8) as char
    } else if n == 62 {
        '+'
    } else {
        '/'
    }
}

/// Standard base64 with padding, by groups of three bytes.
pub open spec fn b64_encode(bs: Seq<u8>) -> Seq<char>
    decreases bs.len(),
{
    if bs.len() == 0 {
        Seq::<char>::empty()
    } else if bs.len() == 1 {
        let b0 = bs[0] as int;
        seq![b64_char_of(b0 / 4), b64_char_of((b0 % 4) * 16), '=', '=']
    } else if bs.len() == 2 {
        let b0 = bs[0] as int;
        let b1 = bs[1] as int;
        seq![
            b64_char_of(b0 / 4),
            b64_char_of((b0 % 4) * 16 + b1 / 16),
            b64_char_of((b1 % 16) * 4),
            '=',
        ]
    } else {
        let b0 = bs[0] as int;
        let b1 = bs[1] as int;
        let b2 = bs[2] as int;
        seq![
            b64_char_of(b0 / 4),
            b64_char_of((b0 % 4) * 16 + b1 / 16),
            b64_char_of((b1 % 16) * 4 + b2 / 64),
            b64_char_of(b2 % 64),
        ] + b64_encode(bs.skip(3))
    }
}

/// A byte sequence always serializes: its base64 encoding between colons.
pub open spec fn sz_byteseq(bs: Seq<u8>) -> Seq<char> {
    seq![':'] + b64_encode(bs) + seq![':']
}

/// The canonical form of a bare item.
pub open spec fn sz_bare_item(b: BareItemV) -> Option<Seq<char>> {
    match b {
        BareItemV::Integer(i) => sz_integer(i),
        BareItemV::Decimal(d) => sz_decimal(d),
        BareItemV::String(s) => sz_string(s),
        BareItemV::Token(t) => sz_token(t),
        BareItemV::ByteSeq(bs) => Some(sz_byteseq(bs)),
        BareItemV::Boolean(v) => Some(seq!['?', if v { '1' } else { '0' }]),
    }
}

/// One parameter: `;key` for a true boolean value, `;key=value` otherwise.
pub open spec fn sz_param(p: (Seq<char>, BareItemV)) -> Option<Seq<char>> {
    match sz_key(p.0) {
        None => None,
        Some(k) => if p.1 == BareItemV::Boolean(true) {
            Some(seq![';'] + k)
        } else {
            match sz_bare_item(p.1) {
                None => None,
                Some(v) => Some(seq![';'] + k + seq!['='] + v),
            }
        },
    }
}

/// All parameters, in order, with no separating whitespace.
pub open spec fn sz_params(ps: Seq<(Seq<char>, BareItemV)>) -> Option<Seq<char>>
    decreases ps.len(),
{
    if ps.len() == 0 {
        Some(Seq::<char>::empty())
    } else {
        match sz_params(ps.drop_last()) {
            None => None,
            Some(a) => match sz_param(ps.last()) {
                None => None,
                Some(b) => Some(a + b),
            },
        }
    }
}

/// An item: its bare item, then its parameters.
pub open spec fn sz_item(it: ItemV) -> Option<Seq<char>> {
    match sz_bare_item(it.bare_item) {
        None => None,
        Some(a) => match sz_params(it.params) {
            None => None,
            Some(b) => Some(a + b),
        },
    }
}

/// The items of an inner list, separated by exactly one space.
pub open spec fn sz_inner_items(items: Seq<ItemV>) -> Option<Seq<char>>
    decreases items.len(),
{
    if items.len() == 0 {
        Some(Seq::<char>::empty())
    } else if items.len() == 1 {
        sz_item(items[0])
    } else {
        match sz_inner_items(items.drop_last()) {
            None => None,
            Some(a) => match sz_item(items.last()) {
                None => None,
                Some(b) => Some(a + seq![' '] + b),
            },
        }
    }
}

/// An inner list: its items in parentheses, then its parameters.
pub open spec fn sz_inner_list(l: InnerListV) -> Option<Seq<char>> {
    match sz_inner_items(l.items) {
        None => None,
        Some(a) => match sz_params(l.params) {
            None => None,
            Some(b) => Some(seq!['('] + a + seq![')'] + b),
        },
    }
}

/// A list or dictionary member.
pub open spec fn sz_list_entry(e: ListEntryV) -> Option<Seq<char>> {
    match e {
        ListEntryV::Item(it) => sz_item(it),
        ListEntryV::InnerList(l) => sz_inner_list(l),
    }
}

/// A list: its members separated by a comma and exactly one space; an empty
/// list serializes to the empty string.
pub open spec fn sz_list(l: Seq<ListEntryV>) -> Option<Seq<char>>
    decreases l.len(),
{
    if l.len() == 0 {
        Some(Seq::<char>::empty())
    } else if l.len() == 1 {
        sz_list_entry(l[0])
    } else {
        match sz_list(l.drop_last()) {
            None => None,
            Some(a) => match sz_list_entry(l.last()) {
                None => None,
                Some(b) => Some(a + seq![',', ' '] + b),
            },
        }
    }
}

/// One dictionary member: a true boolean item serializes as its key and
/// parameters alone; any other member as `key=value`.
pub open spec fn sz_dict_member(m: (Seq<char>, ListEntryV)) -> Option<Seq<char>> {
    match sz_key(m.0) {
        None => None,
        Some(k) => match m.1 {
            ListEntryV::Item(it) => if it.bare_item == BareItemV::Boolean(true) {
                match sz_params(it.params) {
                    None => None,
                    Some(p) => Some(k + p),
                }
            } else {
                match sz_item(it) {
                    None => None,
                    Some(v) => Some(k + seq!['='] + v),
                }
            },
            ListEntryV::InnerList(l) => match sz_inner_list(l) {
                None => None,
                Some(v) => Some(k + seq!['='] + v),
            },
        },
    }
}

/// A dictionary: its members separated by a comma and exactly one space; an
/// empty dictionary serializes to the empty string.
pub open spec fn sz_dictionary(d: Seq<(Seq<char>, ListEntryV)>) -> Option<Seq<char>>
    decreases d.len(),
{
    if d.len() == 0 {
        Some(Seq::<char>::empty())
    } else if d.len() == 1 {
        sz_dict_member(d[0])
    } else {
        match sz_dictionary(d.drop_last()) {
            None => None,
            Some(a) => match sz_dict_member(d.last()) {
                None => None,
                Some(b) => Some(a + seq![',', ' '] + b),
            },
        }
    }
}

pub proof fn lemma_pow10_small()
    ensures
        pow10(0) == 1,
        pow10(1) == 10,
        pow10(2) == 100,
        pow10(3) == 1000,
{
    reveal_with_fuel(pow10, 4);
}

pub proof fn lemma_pow10_large()
    ensures
        pow10(12) == 1_000_000_000_000,
        pow10(15) == 1_000_000_000_000_000,
        pow10(19) == 10_000_000_000_000_000_000,
        pow10(20) == 100_000_000_000_000_000_000,
{
    reveal_with_fuel(pow10, 21);
}

pub proof fn lemma_pow10_pos(n: nat)
    ensures
        pow10(n) >= 1,
    decreases n,
{
    if n > 0 {
        lemma_pow10_pos((n - 1) as nat);
    }
}

pub proof fn lemma_pow10_monotone(a: nat, b: nat)
    requires
        a <= b,
    ensures
        pow10(a) <= pow10(b),
    decreases b,
{
    if a < b {
        lemma_pow10_monotone(a, (b - 1) as nat);
        lemma_pow10_pos((b - 1) as nat);
    }
}

/// 10 to the power `k`, executable.
pub(crate) fn pow10_u64(k: u32) -> (r: u64)
    requires
        k <= 19,
    ensures
        r == pow10(k as nat),
{
    proof {
        lemma_pow10_large();
    }
    let mut acc: u64 = 1;
    let mut j: u32 = 0;
    while j < k
        invariant
            j <= k <= 19,
            acc == pow10(j as nat),
        decreases k - j,
    {
        proof {
            lemma_pow10_large();
            lemma_pow10_monotone((j + 1) as nat, 19);
            assert(pow10((j + 1) as nat) == 10 * pow10(j as nat));
        }
        acc = acc * 10;
        j = j + 1;
    }
    acc
}

/// Appends the decimal digits of `n`.
fn push_digits(out: &mut String, n: u64)
    ensures
        final(out)@ == old(out)@ + dec_digits(n as nat),
    decreases n,
{
    if n < 10 {
        let b: u8 = 0x30 + (n as u8);
        push_char(out, b as char);
        proof {
            assert(old(out)@.push(digit_of(n as int)) =~= old(out)@ + dec_digits(n as nat));
        }
    } else {
        push_digits(out, n / 10);
        let b: u8 = 0x30 + ((n % 10) as u8);
        push_char(out, b as char);
        proof {
            assert((old(out)@ + dec_digits((n as nat) / 10)).push(digit_of((n % 10) as int))
                =~= old(out)@ + dec_digits(n as nat));
        }
    }
}

/// Appends the canonical form of an integer, or fails on one whose
/// magnitude exceeds 15 digits.
fn write_integer(out: &mut String, i: i64) -> (r: Result<(), &'static str>)
    ensures
        r is Ok <==> sz_integer(i as int) is Some,
        r is Ok ==> final(out)@ == old(out)@ + sz_integer(i as int).unwrap(),
{
    if i > 999_999_999_999_999 || i < -999_999_999_999_999 {
        return Err("serialize: integer out of range");
    }
    if i < 0 {
        push_char(out, '-');
        let mag: u64 = (-i) as u64;
        push_digits(out, mag);
        proof {
            assert(old(out)@.push('-') + dec_digits(mag as nat) =~= old(out)@ + int_chars(
                i as int,
            ));
        }
    } else {
        push_digits(out, i as u64);
    }
    Ok(())
}

/// Appends the canonical form of a decimal: rounded half-to-even to 3
/// fractional digits, minimum fractional digits but at least one; fails if
/// the rounded integer part needs more than 12 digits.
fn write_decimal(out: &mut String, d: &Decimal) -> (r: Result<(), &'static str>)
    ensures
        r is Ok <==> sz_decimal(d@) is Some,
        r is Ok ==> final(out)@ == old(out)@ + sz_decimal(d@).unwrap(),
{
    let m = d.mantissa;
    let s = d.scale;
    let m3: u64;
    if s <= 3 {
        proof {
            lemma_pow10_small();
            lemma_pow10_pos((3 - s) as nat);
            lemma_pow10_monotone((3 - s) as nat, 3);
            lemma_mul_inequality(1, pow10((3 - s) as nat) as int, m as int);
            lemma_mul_is_commutative(m as int, pow10((3 - s) as nat) as int);
        }
        if m > 999_999_999_999_999 {
            // the rounded value is at least the mantissa, so it is out of
            // range as well
            return Err("serialize: decimal out of range");
        }
        proof {
            lemma_mul_upper_bound(m as int, 999_999_999_999_999, pow10((3 - s) as nat) as int, 1000);
        }
        let pw = pow10_u64(3 - s);
        m3 = m * pw;
    } else if s >= 23 {
        proof {
            lemma_pow10_large();
            lemma_pow10_monotone(20, (s - 3) as nat);
            let dd = pow10((s - 3) as nat) as int;
            lemma_basic_div(m as int, dd);
            lemma_small_mod(m as nat, dd as nat);
            assert(round3(m as nat, s as nat) == 0);
        }
        m3 = 0;
    } else {
        // 4 <= s <= 22: divide by 10^(s-3) and round half to even
        let k: u32 = s - 3;
        let dpow = pow10_u64(k);
        proof {
            lemma_pow10_pos((k - 1) as nat);
            assert(pow10(k as nat) == 10 * pow10((k - 1) as nat));
            lemma_mod_multiples_basic(5 * pow10((k - 1) as nat) as int, 2);
            assert(dpow % 2 == 0);
            lemma_remainder_upper(m as int, dpow as int);
            lemma_remainder_lower(m as int, dpow as int);
            lemma_div_is_ordered_by_denominator(m as int, 2, dpow as int);
            lemma_div_pos_is_pos(m as int, dpow as int);
        }
        let q = m / dpow;
        let r = m % dpow;
        let half = dpow / 2;
        if r > half {
            m3 = q + 1;
        } else if r == half {
            if q % 2 == 0 {
                m3 = q;
            } else {
                m3 = q + 1;
            }
        } else {
            m3 = q;
        }
        assert(m3 == round3(m as nat, s as nat));
    }
    assert(m3 == round3(m as nat, s as nat));
    if m3 > 999_999_999_999_999 {
        return Err("serialize: decimal out of range");
    }
    let ghost start = out@;
    if d.neg && m3 > 0 {
        push_char(out, '-');
    }
    push_digits(out, m3 / 1000);
    push_char(out, '.');
    let f = m3 % 1000;
    let b100: u8 = 0x30 + ((f / 100) as u8);
    push_char(out, b100 as char);
    if f % 10 != 0 {
        let b10: u8 = 0x30 + (((f / 10) % 10) as u8);
        push_char(out, b10 as char);
        let b1: u8 = 0x30 + ((f % 10) as u8);
        push_char(out, b1 as char);
    } else if (f / 10) % 10 != 0 {
        let b10: u8 = 0x30 + (((f / 10) % 10) as u8);
        push_char(out, b10 as char);
    }
    proof {
        let sign: Seq<char> = if d.neg && m3 > 0 {
            seq!['-']
        } else {
            Seq::<char>::empty()
        };
        assert(final(out)@ =~= start + sign + dec_digits((m3 as nat) / 1000) + seq!['.']
            + frac_chars((m3 as nat) % 1000));
        assert(start + sign + dec_digits((m3 as nat) / 1000) + seq!['.'] + frac_chars(
            (m3 as nat) % 1000,
        ) =~= start + sz_decimal(d@).unwrap());
    }
    Ok(())
}

/// Appends the serialization of a string: quoted, with `"` and `\`
/// escaped; fails on a character outside printable ASCII.
fn write_string(out: &mut String, s: &String) -> (r: Result<(), &'static str>)
    ensures
        r is Ok <==> sz_string(s@) is Some,
        r is Ok ==> final(out)@ == old(out)@ + sz_string(s@).unwrap(),
{
    let ghost start = out@;
    let n = s.as_str().unicode_len();
    push_char(out, '"');
    let mut i: usize = 0;
    while i < n
        invariant
            i <= n == s@.len(),
            out@ == start.push('"') + escaped(s@.take(i as int)),
            forall|k: int| 0 <= k < i ==> printable_char(s@[k]),
        decreases n - i,
    {
        let c = s.as_str().get_char(i);
        if !char_is_printable(c) {
            return Err("serialize: string character not printable");
        }
        let ghost t = s@.take(i + 1);
        proof {
            assert(t.drop_last() =~= s@.take(i as int));
            assert(t.last() == s@[i as int]);
        }
        if c == '"' || c == '\\' {
            push_char(out, '\\');
            push_char(out, c);
            proof {
                assert((start.push('"') + escaped(s@.take(i as int))).push('\\').push(c)
                    =~= start.push('"') + escaped(t));
            }
        } else {
            push_char(out, c);
            proof {
                assert((start.push('"') + escaped(s@.take(i as int))).push(c) =~= start.push('"')
                    + escaped(t));
            }
        }
        i = i + 1;
    }
    push_char(out, '"');
    proof {
        assert(s@.take(n as int) =~= s@);
        assert(start.push('"') + escaped(s@) + seq!['"'] =~= (start.push('"') + escaped(
            s@,
        )).push('"'));
        assert(final(out)@ =~= start + sz_string(s@).unwrap());
    }
    Ok(())
}

/// Appends a token verbatim; fails unless it satisfies the token
/// constraint.
fn write_token(out: &mut String, t: &String) -> (r: Result<(), &'static str>)
    ensures
        r is Ok <==> sz_token(t@) is Some,
        r is Ok ==> final(out)@ == old(out)@ + t@,
{
    let ghost start = out@;
    let n = t.as_str().unicode_len();
    if n == 0 {
        return Err("serialize: empty token");
    }
    let c0 = t.as_str().get_char(0);
    if !char_is_token_start(c0) {
        return Err("serialize: invalid token start character");
    }
    push_char(out, c0);
    proof {
        assert(start.push(c0) =~= start + t@.take(1));
    }
    let mut i: usize = 1;
    while i < n
        invariant
            1 <= i <= n == t@.len(),
            out@ == start + t@.take(i as int),
            token_start_char(t@[0]),
            forall|k: int| 1 <= k < i ==> token_char(t@[k]),
        decreases n - i,
    {
        let c = t.as_str().get_char(i);
        if !char_is_token_char(c) {
            return Err("serialize: invalid token character");
        }
        push_char(out, c);
        proof {
            assert((start + t@.take(i as int)).push(c) =~= start + t@.take(i + 1));
        }
        i = i + 1;
    }
    proof {
        assert(t@.take(n as int) =~= t@);
    }
    Ok(())
}

/// Appends a key verbatim; fails unless it satisfies the key constraint.
fn write_key(out: &mut String, k: &String) -> (r: Result<(), &'static str>)
    ensures
        r is Ok <==> sz_key(k@) is Some,
        r is Ok ==> final(out)@ == old(out)@ + k@,
{
    let ghost start = out@;
    let n = k.as_str().unicode_len();
    if n == 0 {
        return Err("serialize: empty key");
    }
    let c0 = k.as_str().get_char(0);
    if !char_is_key_start(c0) {
        return Err("serialize: invalid key start character");
    }
    push_char(out, c0);
    proof {
        assert(start.push(c0) =~= start + k@.take(1));
    }
    let mut i: usize = 1;
    while i < n
        invariant
            1 <= i <= n == k@.len(),
            out@ == start + k@.take(i as int),
            key_start_char(k@[0]),
            forall|m: int| 1 <= m < i ==> key_char(k@[m]),
        decreases n - i,
    {
        let c = k.as_str().get_char(i);
        if !char_is_key_char(c) {
            return Err("serialize: invalid key character");
        }
        push_char(out, c);
        proof {
            assert((start + k@.take(i as int)).push(c) =~= start + k@.take(i + 1));
        }
        i = i + 1;
    }
    proof {
        assert(k@.take(n as int) =~= k@);
    }
    Ok(())
}

/// Appends `?1` or `?0`.
fn write_boolean(out: &mut String, v: bool)
    ensures
        final(out)@ == old(out)@ + seq![
            '?',
            if v {
                '1'
            } else {
                '0'
            },
        ],
{
    push_char(out, '?');
    if v {
        push_char(out, '1');
    } else {
        push_char(out, '0');
    }
    proof {
        assert(final(out)@ =~= old(out)@ + seq![
            '?',
            if v {
                '1'
            } else {
                '0'
            },
        ]);
    }
}

/// The character of one base64 sextet, executable.
fn b64_char_exec(n: u8) -> (c: char)
    requires
        n < 64,
    ensures
        c == b64_char_of(n as int),
{
    let b: u8 = if n < 26 {
        0x41 + n
    } else if n < 52 {
        0x61 + (n - 26)
    } else if n < 62 {
        0x30 + (n - 52)
    } else if n == 62 {
        0x2b
    } else {
        0x2f
    };
    b as char
}

/// Appends the serialization of a byte sequence: base64 with padding
/// between colons. Any byte content serializes.
fn write_byteseq(out: &mut String, bs: &Vec<u8>)
    ensures
        final(out)@ == old(out)@ + sz_byteseq(bs@),
{
    let ghost start = out@;
    push_char(out, ':');
    proof {
        assert(bs@.skip(0) =~= bs@);
    }
    let mut i: usize = 0;
    while bs.len() - i >= 3
        invariant
            i <= bs@.len(),
            start.push(':') + b64_encode(bs@) == out@ + b64_encode(bs@.skip(i as int)),
        decreases bs@.len() - i,
    {
        let b0 = bs[i];
        let b1 = bs[i + 1];
        let b2 = bs[i + 2];
        let c0 = b64_char_exec(b0 / 4);
        let c1 = b64_char_exec((b0 % 4) * 16 + b1 / 16);
        let c2 = b64_char_exec((b1 % 16) * 4 + b2 / 64);
        let c3 = b64_char_exec(b2 % 64);
        let ghost before = out@;
        push_char(out, c0);
        push_char(out, c1);
        push_char(out, c2);
        push_char(out, c3);
        proof {
            let rest = bs@.skip(i as int);
            assert(rest.len() >= 3);
            assert(rest[0] == bs@[i as int]);
            assert(rest[1] == bs@[i + 1]);
            assert(rest[2] == bs@[i + 2]);
            assert(rest.skip(3) =~= bs@.skip(i + 3));
            assert(b64_encode(rest) == seq![c0, c1, c2, c3] + b64_encode(bs@.skip(i + 3)));
            assert(before.push(c0).push(c1).push(c2).push(c3) + b64_encode(bs@.skip(i + 3))
                =~= before + b64_encode(rest));
        }
        i = i + 3;
    }
    let rem = bs.len() - i;
    if rem == 1 {
        let b0 = bs[i];
        let c0 = b64_char_exec(b0 / 4);
        let c1 = b64_char_exec((b0 % 4) * 16);
        let ghost before = out@;
        push_char(out, c0);
        push_char(out, c1);
        push_char(out, '=');
        push_char(out, '=');
        proof {
            let rest = bs@.skip(i as int);
            assert(rest.len() == 1);
            assert(rest[0] == bs@[i as int]);
            assert(b64_encode(rest) == seq![c0, c1, '=', '=']);
            assert(before.push(c0).push(c1).push('=').push('=') =~= before + b64_encode(rest));
        }
    } else if rem == 2 {
        let b0 = bs[i];
        let b1 = bs[i + 1];
        let c0 = b64_char_exec(b0 / 4);
        let c1 = b64_char_exec((b0 % 4) * 16 + b1 / 16);
        let c2 = b64_char_exec((b1 % 16) * 4);
        let ghost before = out@;
        push_char(out, c0);
        push_char(out, c1);
        push_char(out, c2);
        push_char(out, '=');
        proof {
            let rest = bs@.skip(i as int);
            assert(rest.len() == 2);
            assert(rest[0] == bs@[i as int]);
            assert(rest[1] == bs@[i + 1]);
            assert(b64_encode(rest) == seq![c0, c1, c2, '=']);
            assert(before.push(c0).push(c1).push(c2).push('=') =~= before + b64_encode(rest));
        }
    } else {
        proof {
            assert(bs@.skip(i as int).len() == 0);
            assert(b64_encode(bs@.skip(i as int)) =~= Seq::<char>::empty());
            assert(out@ + b64_encode(bs@.skip(i as int)) =~= out@);
        }
    }
    push_char(out, ':');
    proof {
        assert(final(out)@ =~= start + sz_byteseq(bs@));
    }
}

/// Appends the canonical form of one bare item.
fn write_bare_item(out: &mut String, b: &BareItem) -> (r: Result<(), &'static str>)
    ensures
        r is Ok <==> sz_bare_item(b@) is Some,
        r is Ok ==> final(out)@ == old(out)@ + sz_bare_item(b@).unwrap(),
{
    match b {
        BareItem::Number(Num::Integer(i)) => write_integer(out, *i),
        BareItem::Number(Num::Decimal(d)) => write_decimal(out, d),
        BareItem::String(s) => write_string(out, s),
        BareItem::Token(t) => write_token(out, t),
        BareItem::ByteSeq(bs) => {
            write_byteseq(out, bs);
            Ok(())
        },
        BareItem::Boolean(v) => {
            write_boolean(out, *v);
            Ok(())
        },
    }
}

proof fn lemma_sz_params_none(ps: Seq<(Seq<char>, BareItemV)>, i: int)
    requires
        0 <= i < ps.len(),
        sz_param(ps[i]) is None,
    ensures
        sz_params(ps) is None,
    decreases ps.len(),
{
    if i < ps.len() - 1 {
        assert(ps.drop_last()[i] == ps[i]);
        lemma_sz_params_none(ps.drop_last(), i);
    }
}

proof fn lemma_sz_inner_items_none(items: Seq<ItemV>, i: int)
    requires
        0 <= i < items.len(),
        sz_item(items[i]) is None,
    ensures
        sz_inner_items(items) is None,
    decreases items.len(),
{
    if items.len() > 1 && i < items.len() - 1 {
        assert(items.drop_last()[i] == items[i]);
        lemma_sz_inner_items_none(items.drop_last(), i);
    }
}

proof fn lemma_sz_list_none(l: Seq<ListEntryV>, i: int)
    requires
        0 <= i < l.len(),
        sz_list_entry(l[i]) is None,
    ensures
        sz_list(l) is None,
    decreases l.len(),
{
    if l.len() > 1 && i < l.len() - 1 {
        assert(l.drop_last()[i] == l[i]);
        lemma_sz_list_none(l.drop_last(), i);
    }
}

proof fn lemma_sz_dictionary_none(d: Seq<(Seq<char>, ListEntryV)>, i: int)
    requires
        0 <= i < d.len(),
        sz_dict_member(d[i]) is None,
    ensures
        sz_dictionary(d) is None,
    decreases d.len(),
{
    if d.len() > 1 && i < d.len() - 1 {
        assert(d.drop_last()[i] == d[i]);
        lemma_sz_dictionary_none(d.drop_last(), i);
    }
}

/// Appends all parameters: `;key` or `;key=value` each, no whitespace.
fn write_params(out: &mut String, ps: &Parameters) -> (r: Result<(), &'static str>)
    ensures
        r is Ok <==> sz_params(ps@) is Some,
        r is Ok ==> final(out)@ == old(out)@ + sz_params(ps@).unwrap(),
{
    let ghost start = out@;
    proof {
        lemma_params_view(ps);
    }
    let n = ps.entries.len();
    let mut idx: usize = 0;
    while idx < n
        invariant
            idx <= n == ps.entries@.len(),
            ps@.len() == n,
            forall|k: int| 0 <= k < n ==> ps@[k] == (ps.entries@[k].0@, ps.entries@[k].1@),
            sz_params(ps@.take(idx as int)) is Some,
            out@ == start + sz_params(ps@.take(idx as int)).unwrap(),
        decreases n - idx,
    {
        push_char(out, ';');
        let ghost mid = out@;
        if let Err(e) = write_key(out, &ps.entries[idx].0) {
            proof {
                assert(sz_param(ps@[idx as int]) is None);
                lemma_sz_params_none(ps@, idx as int);
            }
            return Err(e);
        }
        let ghost kv = ps@[idx as int];
        match &ps.entries[idx].1 {
            BareItem::Boolean(true) => {
                proof {
                    assert(kv.1 == BareItemV::Boolean(true));
                    assert(sz_param(kv) == Some(seq![';'] + kv.0));
                    let t = ps@.take(idx + 1);
                    assert(t.drop_last() =~= ps@.take(idx as int));
                    assert(t.last() == kv);
                    assert(out@ =~= start + (sz_params(ps@.take(idx as int)).unwrap() + (seq![';']
                        + kv.0)));
                }
            },
            _ => {
                proof {
                    assert(kv.1 != BareItemV::Boolean(true));
                }
                push_char(out, '=');
                if let Err(e) = write_bare_item(out, &ps.entries[idx].1) {
                    proof {
                        assert(sz_param(ps@[idx as int]) is None);
                        lemma_sz_params_none(ps@, idx as int);
                    }
                    return Err(e);
                }
                proof {
                    let t = ps@.take(idx + 1);
                    assert(t.drop_last() =~= ps@.take(idx as int));
                    assert(t.last() == kv);
                    assert(sz_param(kv) == Some(seq![';'] + kv.0 + seq!['='] + sz_bare_item(
                        kv.1,
                    ).unwrap()));
                    assert(out@ =~= start + (sz_params(ps@.take(idx as int)).unwrap() + sz_param(
                        kv,
                    ).unwrap()));
                }
            },
        }
        idx = idx + 1;
    }
    proof {
        assert(ps@.take(n as int) =~= ps@);
    }
    Ok(())
}

/// Appends an item: its bare item, then its parameters.
fn write_item(out: &mut String, it: &Item) -> (r: Result<(), &'static str>)
    ensures
        r is Ok <==> sz_item(it@) is Some,
        r is Ok ==> final(out)@ == old(out)@ + sz_item(it@).unwrap(),
{
    if let Err(e) = write_bare_item(out, &it.bare_item) {
        return Err(e);
    }
    if let Err(e) = write_params(out, &it.params) {
        return Err(e);
    }
    Ok(())
}

/// Appends an inner list: parenthesized items separated by single spaces,
/// then the list's own parameters.
fn write_inner_list(out: &mut String, l: &InnerList) -> (r: Result<(), &'static str>)
    ensures
        r is Ok <==> sz_inner_list(l@) is Some,
        r is Ok ==> final(out)@ == old(out)@ + sz_inner_list(l@).unwrap(),
{
    let ghost start = out@;
    let ghost iv = crate::values::items_view(l.items@);
    push_char(out, '(');
    let n = l.items.len();
    let mut idx: usize = 0;
    while idx < n
        invariant
            idx <= n == l.items@.len(),
            iv == crate::values::items_view(l.items@),
            iv.len() == n,
            sz_inner_items(iv.take(idx as int)) is Some,
            out@ == start.push('(') + sz_inner_items(iv.take(idx as int)).unwrap(),
        decreases n - idx,
    {
        if idx > 0 {
            push_char(out, ' ');
        }
        let r = write_item(out, &l.items[idx]);
        if let Err(e) = r {
            proof {
                assert(iv[idx as int] == l.items@[idx as int]@);
                lemma_sz_inner_items_none(iv, idx as int);
            }
            return Err(e);
        }
        proof {
            let t = iv.take(idx + 1);
            assert(iv[idx as int] == l.items@[idx as int]@);
            if idx == 0 {
                assert(t.len() == 1);
                assert(t[0] == iv[0]);
                assert(out@ =~= start.push('(') + sz_inner_items(t).unwrap());
            } else {
                assert(t.drop_last() =~= iv.take(idx as int));
                assert(t.last() == iv[idx as int]);
                assert(out@ =~= start.push('(') + (sz_inner_items(iv.take(idx as int)).unwrap()
                    + seq![' '] + sz_item(iv[idx as int]).unwrap()));
            }
        }
        idx = idx + 1;
    }
    push_char(out, ')');
    if let Err(e) = write_params(out, &l.params) {
        return Err(e);
    }
    proof {
        assert(iv.take(n as int) =~= iv);
        assert(final(out)@ =~= start + sz_inner_list(l@).unwrap());
    }
    Ok(())
}

/// Appends one list or dictionary member.
fn write_list_entry(out: &mut String, e: &ListEntry) -> (r: Result<(), &'static str>)
    ensures
        r is Ok <==> sz_list_entry(e@) is Some,
        r is Ok ==> final(out)@ == old(out)@ + sz_list_entry(e@).unwrap(),
{
    match e {
        ListEntry::Item(it) => write_item(out, it),
        ListEntry::InnerList(l) => write_inner_list(out, l),
    }
}

/// Serializes a list: members separated by a comma and exactly one space.
/// An empty list yields the empty string. Fails iff some member violates a
/// grammar constraint.
pub fn serialize_list(l: &List) -> (r: Result<String, &'static str>)
    ensures
        r is Ok <==> sz_list(crate::values::list_view(l@)) is Some,
        r is Ok ==> r.unwrap()@ == sz_list(crate::values::list_view(l@)).unwrap(),
{
    let ghost lv = crate::values::list_view(l@);
    let mut out = String::new();
    let n = l.len();
    let mut idx: usize = 0;
    while idx < n
        invariant
            idx <= n == l@.len(),
            lv == crate::values::list_view(l@),
            lv.len() == n,
            sz_list(lv.take(idx as int)) is Some,
            out@ == sz_list(lv.take(idx as int)).unwrap(),
        decreases n - idx,
    {
        if idx > 0 {
            push_char(&mut out, ',');
            push_char(&mut out, ' ');
        }
        let r = write_list_entry(&mut out, &l[idx]);
        if let Err(e) = r {
            proof {
                assert(lv[idx as int] == l@[idx as int]@);
                lemma_sz_list_none(lv, idx as int);
            }
            return Err(e);
        }
        proof {
            let t = lv.take(idx + 1);
            assert(lv[idx as int] == l@[idx as int]@);
            if idx == 0 {
                assert(t.len() == 1);
                assert(t[0] == lv[0]);
            } else {
                assert(t.drop_last() =~= lv.take(idx as int));
                assert(t.last() == lv[idx as int]);
                assert(out@ =~= sz_list(lv.take(idx as int)).unwrap() + seq![',', ' ']
                    + sz_list_entry(lv[idx as int]).unwrap());
            }
        }
        idx = idx + 1;
    }
    proof {
        assert(lv.take(n as int) =~= lv);
    }
    Ok(out)
}

impl Item {
    /// Serializes this item to its canonical textual form, or fails when a
    /// grammar constraint is violated.
    pub fn serialize_value(&self) -> (r: Result<String, &'static str>)
        ensures
            r is Ok <==> sz_item(self@) is Some,
            r is Ok ==> r.unwrap()@ == sz_item(self@).unwrap(),
    {
        let mut out = String::new();
        if let Err(e) = write_item(&mut out, self) {
            return Err(e);
        }
        Ok(out)
    }
}

impl InnerList {
    /// Serializes this inner list to its canonical textual form, or fails
    /// when a grammar constraint is violated.
    pub fn serialize_value(&self) -> (r: Result<String, &'static str>)
        ensures
            r is Ok <==> sz_inner_list(self@) is Some,
            r is Ok ==> r.unwrap()@ == sz_inner_list(self@).unwrap(),
    {
        let mut out = String::new();
        if let Err(e) = write_inner_list(&mut out, self) {
            return Err(e);
        }
        Ok(out)
    }
}

impl crate::values::Dictionary {
    /// Serializes this dictionary: members separated by a comma and exactly
    /// one space; a member whose value is a true boolean item serializes as
    /// its key and parameters alone. An empty dictionary yields the empty
    /// string.
    #[verifier::rlimit(80)]
    pub fn serialize_value(&self) -> (r: Result<String, &'static str>)
        ensures
            r is Ok <==> sz_dictionary(self@) is Some,
            r is Ok ==> r.unwrap()@ == sz_dictionary(self@).unwrap(),
    {
        let ghost dv = self@;
        proof {
            crate::values::lemma_dictionary_view(self);
        }
        let mut out = String::new();
        let n = self.entries.len();
        let mut idx: usize = 0;
        while idx < n
            invariant
                idx <= n == self.entries@.len(),
                dv == self@,
                dv.len() == n,
                forall|k: int|
                    0 <= k < n ==> dv[k] == (self.entries@[k].0@, self.entries@[k].1@),
                sz_dictionary(dv.take(idx as int)) is Some,
                out@ == sz_dictionary(dv.take(idx as int)).unwrap(),
            decreases n - idx,
        {
            let ghost mv = dv[idx as int];
            if idx > 0 {
                push_char(&mut out, ',');
                push_char(&mut out, ' ');
            }
            let ghost before = out@;
            let r = write_key(&mut out, &self.entries[idx].0);
            if let Err(e) = r {
                proof {
                    assert(sz_dict_member(mv) is None);
                    lemma_sz_dictionary_none(dv, idx as int);
                }
                return Err(e);
            }
            let rv: Result<(), &'static str> = match &self.entries[idx].1 {
                ListEntry::Item(it) => {
                    match &it.bare_item {
                        BareItem::Boolean(true) => {
                            proof {
                                assert(mv.1 == ListEntryV::Item(it@));
                                assert(it@.bare_item == BareItemV::Boolean(true));
                            }
                            write_params(&mut out, &it.params)
                        },
                        _ => {
                            proof {
                                assert(it@.bare_item != BareItemV::Boolean(true));
                            }
                            push_char(&mut out, '=');
                            write_item(&mut out, it)
                        },
                    }
                },
                ListEntry::InnerList(il) => {
                    push_char(&mut out, '=');
                    write_inner_list(&mut out, il)
                },
            };
            if let Err(e) = rv {
                proof {
                    assert(sz_dict_member(mv) is None);
                    lemma_sz_dictionary_none(dv, idx as int);
                }
                return Err(e);
            }
            proof {
                let t = dv.take(idx + 1);
                if idx == 0 {
                    assert(t.len() == 1);
                    assert(t[0] == dv[0]);
                    assert(out@ =~= sz_dict_member(mv).unwrap());
                } else {
                    assert(t.drop_last() =~= dv.take(idx as int));
                    assert(t.last() == mv);
                    assert(out@ =~= sz_dictionary(dv.take(idx as int)).unwrap() + seq![',', ' ']
                        + sz_dict_member(mv).unwrap());
                }
            }
            idx = idx + 1;
        }
        proof {
            assert(dv.take(n as int) =~= dv);
        }
        Ok(out)
    }
}

} // verus!
