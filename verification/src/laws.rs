//! Round-trip laws: parsing the canonical serialization of a value yields
//! the value back. Proved here for items whose bare item is a boolean or
//! an integer; the law for the remaining constructs is exercised by tests.

use vstd::arithmetic::div_mod::lemma_multiply_divide_lt;
use vstd::prelude::*;

use crate::grammar::{
    b64_decode, b64_end, digit_end, digits_val, sextet_of, sp_bare_item, sp_boolean, sp_byteseq,
    sp_item, sp_item_field, sp_number, sp_params, sp_string, sp_string_body, sp_token, token_end,
};
use crate::serializer::{
    b64_char_of, b64_encode, dec_digits, digit_of, escaped, frac_chars, int_chars,
    lemma_pow10_large, lemma_pow10_small, pow10, round3, sz_bare_item, sz_byteseq, sz_decimal,
    sz_item, sz_params, valid_string_chars, valid_token,
};
use crate::utils::{
    base64_char, digit_char, ows_char, ows_end, printable_char, token_char, token_start_char,
};
use crate::values::{BareItemV, DecimalV, ItemV};

verus! {

proof fn lemma_dec_digits_are_digits(n: nat)
    ensures
        dec_digits(n).len() >= 1,
        forall|k: int| 0 <= k < dec_digits(n).len() ==> digit_char(#[trigger] dec_digits(n)[k]),
    decreases n,
{
    if n >= 10 {
        lemma_dec_digits_are_digits(n / 10);
        assert(digit_char(digit_of((n % 10) as int)));
    } else {
        assert(digit_char(digit_of(n as int)));
    }
}

proof fn lemma_dec_digits_len(n: nat, k: nat)
    requires
        n < pow10(k),
        k >= 1,
    ensures
        dec_digits(n).len() <= k,
    decreases n,
{
    if n >= 10 {
        lemma_pow10_small();
        if k == 1 {
            assert(false);
        }
        assert(pow10(k) == 10 * pow10((k - 1) as nat));
        lemma_multiply_divide_lt(n as int, 10, pow10((k - 1) as nat) as int);
        lemma_dec_digits_len(n / 10, (k - 1) as nat);
    }
}

proof fn lemma_digits_val_of_dec_digits(cs: Seq<char>, i: int, n: nat)
    requires
        0 <= i,
        i + dec_digits(n).len() <= cs.len(),
        cs.subrange(i, i + dec_digits(n).len() as int) == dec_digits(n),
    ensures
        digits_val(cs, i, i + dec_digits(n).len() as int) == n,
    decreases n,
{
    let len = dec_digits(n).len() as int;
    if n < 10 {
        assert(cs[i] == cs.subrange(i, i + 1)[0]);
        assert(cs[i] == digit_of(n as int));
        assert(digit_of(n as int) as int == 0x30 + n);
        assert(digits_val(cs, i, i) == 0);
        assert(digits_val(cs, i, i + 1) == digits_val(cs, i, i) * 10 + (cs[i] as int - 0x30));
    } else {
        let sub = dec_digits(n / 10).len() as int;
        assert(sub == len - 1);
        assert forall|t: int| 0 <= t < sub implies #[trigger] cs.subrange(i, i + sub)[t]
            == dec_digits(n / 10)[t] by {
            assert(cs.subrange(i, i + len)[t] == dec_digits(n)[t]);
            assert(dec_digits(n)[t] == dec_digits(n / 10)[t]);
        }
        assert(cs.subrange(i, i + sub) =~= dec_digits(n / 10));
        lemma_digits_val_of_dec_digits(cs, i, n / 10);
        assert(cs[i + len - 1] == cs.subrange(i, i + len)[len - 1]);
        assert(cs[i + len - 1] == digit_of((n % 10) as int));
        assert(digit_of((n % 10) as int) as int == 0x30 + (n % 10));
        assert(digits_val(cs, i, i + len) == digits_val(cs, i, i + len - 1) * 10 + (n % 10));
        assert(n == 10 * (n / 10) + (n % 10)) by {
            vstd::arithmetic::div_mod::lemma_fundamental_div_mod(n as int, 10);
        }
    }
}

proof fn lemma_digit_end_of_run(cs: Seq<char>, i: int, j: int)
    requires
        0 <= i <= j <= cs.len(),
        forall|k: int| i <= k < j ==> digit_char(#[trigger] cs[k]),
        j == cs.len() || !digit_char(cs[j]),
    ensures
        digit_end(cs, i) == j,
    decreases j - i,
{
    if i < j {
        lemma_digit_end_of_run(cs, i + 1, j);
    }
}

proof fn lemma_token_end_of_run(cs: Seq<char>, i: int, j: int)
    requires
        0 <= i <= j <= cs.len(),
        forall|k: int| i <= k < j ==> token_char(#[trigger] cs[k]),
        j == cs.len() || !token_char(cs[j]),
    ensures
        token_end(cs, i) == j,
    decreases j - i,
{
    if i < j {
        lemma_token_end_of_run(cs, i + 1, j);
    }
}

/// The escape of one character.
spec fn esc_char(c: char) -> Seq<char> {
    if c == '"' || c == '\\' {
        seq!['\\', c]
    } else {
        seq![c]
    }
}

proof fn lemma_escaped_first(s: Seq<char>)
    requires
        s.len() > 0,
    ensures
        escaped(s) == esc_char(s[0]) + escaped(s.subrange(1, s.len() as int)),
    decreases s.len(),
{
    let rest = s.subrange(1, s.len() as int);
    if s.len() == 1 {
        assert(s.drop_last() =~= Seq::<char>::empty());
        assert(rest =~= Seq::<char>::empty());
        assert(escaped(s) =~= esc_char(s[0]) + escaped(rest));
    } else {
        lemma_escaped_first(s.drop_last());
        assert(s.drop_last()[0] == s[0]);
        let mid = s.drop_last().subrange(1, s.drop_last().len() as int);
        assert(mid =~= rest.drop_last());
        assert(rest.last() == s.last());
        assert(escaped(rest) == escaped(rest.drop_last()) + esc_char(rest.last()));
        assert(escaped(s) == escaped(s.drop_last()) + esc_char(s.last()));
        assert(escaped(s) == (esc_char(s[0]) + escaped(mid)) + esc_char(s.last()));
        assert((esc_char(s[0]) + escaped(mid)) + esc_char(s.last()) =~= esc_char(s[0]) + (escaped(
            rest.drop_last(),
        ) + esc_char(rest.last())));
    }
}

proof fn lemma_sp_string_body_of_escaped(cs: Seq<char>, i: int, s: Seq<char>, acc: Seq<char>)
    requires
        0 <= i,
        valid_string_chars(s),
        i + escaped(s).len() + 1 <= cs.len(),
        cs.subrange(i, i + escaped(s).len() as int) == escaped(s),
        cs[i + escaped(s).len()] == '"',
    ensures
        sp_string_body(cs, i, acc) == Some((acc + s, i + escaped(s).len() + 1)),
    decreases s.len(),
{
    let elen = escaped(s).len() as int;
    if s.len() == 0 {
        assert(cs[i] == '"');
        assert(acc + s =~= acc);
    } else {
        let c = s[0];
        let rest = s.subrange(1, s.len() as int);
        lemma_escaped_first(s);
        let ec = esc_char(c);
        let rlen = escaped(rest).len() as int;
        assert(printable_char(c));
        assert forall|t: int| 0 <= t < elen implies cs[i + t] == escaped(s)[t] by {
            assert(cs.subrange(i, i + elen)[t] == escaped(s)[t]);
        }
        let inext = i + ec.len() as int;
        assert forall|t: int| 0 <= t < rlen implies cs.subrange(inext, inext + rlen)[t]
            == escaped(rest)[t] by {
            assert(escaped(s)[ec.len() + t] == escaped(rest)[t]);
        }
        assert(cs.subrange(inext, inext + rlen) =~= escaped(rest));
        assert(cs[inext + rlen] == '"');
        assert(forall|t: int| 0 <= t < rest.len() ==> rest[t] == s[t + 1]);
        lemma_sp_string_body_of_escaped(cs, inext, rest, acc.push(c));
        assert(acc.push(c) + rest =~= acc + s);
        if c == '"' || c == '\\' {
            assert(cs[i + 0] == escaped(s)[0]);
            assert(cs[i + 1] == escaped(s)[1]);
            assert(escaped(s)[0] == ec[0]);
            assert(escaped(s)[1] == ec[1]);
            assert(cs[i] == '\\');
            assert(cs[i + 1] == c);
            assert(sp_string_body(cs, i, acc) == sp_string_body(cs, i + 2, acc.push(c)));
        } else {
            assert(cs[i + 0] == escaped(s)[0]);
            assert(escaped(s)[0] == ec[0]);
            assert(cs[i] == c);
            assert(cs[i] != '"' && cs[i] != '\\');
            assert(sp_string_body(cs, i, acc) == sp_string_body(cs, i + 1, acc.push(c)));
        }
    }
}

proof fn lemma_b64_char_of_inverse(n: int)
    requires
        0 <= n < 64,
    ensures
        sextet_of(b64_char_of(n)) == n,
        base64_char(b64_char_of(n)),
        b64_char_of(n) != '=',
{
}

proof fn lemma_b64_encode_shape(bs: Seq<u8>)
    ensures
        b64_encode(bs).len() % 4 == 0,
        (b64_encode(bs).len() == 0) == (bs.len() == 0),
        forall|k: int|
            0 <= k < b64_encode(bs).len() ==> base64_char(#[trigger] b64_encode(bs)[k]),
    decreases bs.len(),
{
    if bs.len() == 1 {
        lemma_b64_char_of_inverse(bs[0] as int / 4);
        lemma_b64_char_of_inverse((bs[0] as int % 4) * 16);
    } else if bs.len() == 2 {
        lemma_b64_char_of_inverse(bs[0] as int / 4);
        lemma_b64_char_of_inverse((bs[0] as int % 4) * 16 + bs[1] as int / 16);
        lemma_b64_char_of_inverse((bs[1] as int % 16) * 4);
    } else if bs.len() >= 3 {
        lemma_b64_encode_shape(bs.skip(3));
        lemma_b64_char_of_inverse(bs[0] as int / 4);
        lemma_b64_char_of_inverse((bs[0] as int % 4) * 16 + bs[1] as int / 16);
        lemma_b64_char_of_inverse((bs[1] as int % 16) * 4 + bs[2] as int / 64);
        lemma_b64_char_of_inverse(bs[2] as int % 64);
    }
}

#[verifier::rlimit(100)]
proof fn lemma_b64_decode_encode(bs: Seq<u8>)
    ensures
        b64_decode(b64_encode(bs)) == Some(bs),
    decreases bs.len(),
{
    let enc = b64_encode(bs);
    lemma_b64_encode_shape(bs);
    if bs.len() == 0 {
        assert(bs =~= Seq::<u8>::empty());
    } else if bs.len() == 1 {
        let b0 = bs[0] as int;
        let s0 = b0 / 4;
        let s1 = (b0 % 4) * 16;
        lemma_b64_char_of_inverse(s0);
        lemma_b64_char_of_inverse(s1);
        assert(s1 % 16 == 0 && s1 / 16 == b0 % 4 && s0 * 4 + b0 % 4 == b0) by (nonlinear_arith)
            requires
                0 <= b0 < 256,
                s0 == b0 / 4,
                s1 == (b0 % 4) * 16,
        ;
        assert(enc.skip(4) =~= Seq::<char>::empty());
        assert(b64_decode(Seq::<char>::empty()) == Some(Seq::<u8>::empty()));
        assert(b64_decode(enc) == Some(seq![b0 as u8] + Seq::<u8>::empty()));
        assert(seq![b0 as u8] + Seq::<u8>::empty() =~= bs);
    } else if bs.len() == 2 {
        let b0 = bs[0] as int;
        let b1 = bs[1] as int;
        let s0 = b0 / 4;
        let s1 = (b0 % 4) * 16 + b1 / 16;
        let s2 = (b1 % 16) * 4;
        lemma_b64_char_of_inverse(s0);
        lemma_b64_char_of_inverse(s1);
        lemma_b64_char_of_inverse(s2);
        assert(s2 % 4 == 0 && s0 * 4 + s1 / 16 == b0 && (s1 % 16) * 16 + s2 / 4 == b1)
            by (nonlinear_arith)
            requires
                0 <= b0 < 256,
                0 <= b1 < 256,
                s0 == b0 / 4,
                s1 == (b0 % 4) * 16 + b1 / 16,
                s2 == (b1 % 16) * 4,
        ;
        assert(enc.skip(4) =~= Seq::<char>::empty());
        assert(b64_decode(Seq::<char>::empty()) == Some(Seq::<u8>::empty()));
        assert(b64_decode(enc) == Some(seq![b0 as u8, b1 as u8] + Seq::<u8>::empty()));
        assert(seq![b0 as u8, b1 as u8] + Seq::<u8>::empty() =~= bs);
    } else {
        let b0 = bs[0] as int;
        let b1 = bs[1] as int;
        let b2 = bs[2] as int;
        let s0 = b0 / 4;
        let s1 = (b0 % 4) * 16 + b1 / 16;
        let s2 = (b1 % 16) * 4 + b2 / 64;
        let s3 = b2 % 64;
        lemma_b64_char_of_inverse(s0);
        lemma_b64_char_of_inverse(s1);
        lemma_b64_char_of_inverse(s2);
        lemma_b64_char_of_inverse(s3);
        assert(s0 * 4 + s1 / 16 == b0 && (s1 % 16) * 16 + s2 / 4 == b1 && (s2 % 4) * 64 + s3
            == b2) by (nonlinear_arith)
            requires
                0 <= b0 < 256,
                0 <= b1 < 256,
                0 <= b2 < 256,
                s0 == b0 / 4,
                s1 == (b0 % 4) * 16 + b1 / 16,
                s2 == (b1 % 16) * 4 + b2 / 64,
                s3 == b2 % 64,
        ;
        lemma_b64_decode_encode(bs.skip(3));
        lemma_b64_encode_shape(bs.skip(3));
        assert(enc.skip(4) =~= b64_encode(bs.skip(3)));
        assert(enc.len() == 4 + b64_encode(bs.skip(3)).len());
        assert(b64_decode(enc) == Some(seq![b0 as u8, b1 as u8, b2 as u8] + bs.skip(3)));
        assert(seq![b0 as u8, b1 as u8, b2 as u8] + bs.skip(3) =~= bs);
    }
}

proof fn lemma_b64_end_of_run(cs: Seq<char>, i: int, j: int)
    requires
        0 <= i <= j <= cs.len(),
        forall|k: int| i <= k < j ==> base64_char(#[trigger] cs[k]),
        j == cs.len() || !base64_char(cs[j]),
    ensures
        b64_end(cs, i) == j,
    decreases j - i,
{
    if i < j {
        lemma_b64_end_of_run(cs, i + 1, j);
    }
}

/// Round trip for byte-sequence items: an item holding any bytes with no
/// parameters serializes as padded base64 between colons, and parsing that
/// canonical form yields the same bytes back.
pub proof fn lemma_byteseq_round_trip(bs: Seq<u8>)
    ensures
        sz_item(
            ItemV {
                bare_item: BareItemV::ByteSeq(bs),
                params: Seq::<(Seq<char>, BareItemV)>::empty(),
            },
        ) is Some,
        sp_item_field(
            sz_item(
                ItemV {
                    bare_item: BareItemV::ByteSeq(bs),
                    params: Seq::<(Seq<char>, BareItemV)>::empty(),
                },
            ).unwrap(),
        ) == Some(
            ItemV {
                bare_item: BareItemV::ByteSeq(bs),
                params: Seq::<(Seq<char>, BareItemV)>::empty(),
            },
        ),
{
    let item = ItemV {
        bare_item: BareItemV::ByteSeq(bs),
        params: Seq::<(Seq<char>, BareItemV)>::empty(),
    };
    let enc = b64_encode(bs);
    let elen = enc.len() as int;
    lemma_b64_encode_shape(bs);
    lemma_b64_decode_encode(bs);
    assert(sz_bare_item(item.bare_item) == Some(sz_byteseq(bs)));
    assert(sz_params(item.params) == Some(Seq::<char>::empty()));
    let cs = sz_item(item).unwrap();
    assert(cs =~= seq![':'] + enc + seq![':']);
    let e = cs.len() as int;
    assert(e == elen + 2);
    assert(cs[0] == ':');
    assert(!ows_char(cs[0]));
    assert(ows_end(cs, 0) == 0);
    assert(!digit_char(cs[0]) && cs[0] != '-' && cs[0] != '"');
    assert forall|k: int| 1 <= k < 1 + elen implies base64_char(#[trigger] cs[k]) by {
        assert(cs[k] == enc[k - 1]);
    }
    assert(cs[1 + elen] == ':');
    assert(!base64_char(':'));
    lemma_b64_end_of_run(cs, 1, 1 + elen);
    assert forall|t: int| 0 <= t < elen implies cs.subrange(1, 1 + elen)[t] == enc[t] by {
        assert(cs.subrange(1, 1 + elen)[t] == cs[1 + t]);
    }
    assert(cs.subrange(1, 1 + elen) =~= enc);
    assert(sp_byteseq(cs, 0) == Some((BareItemV::ByteSeq(bs), e)));
    assert(sp_bare_item(cs, 0) == Some((BareItemV::ByteSeq(bs), e)));
    assert(sp_params(cs, e, Seq::<(Seq<char>, BareItemV)>::empty()) == Some(
        (Seq::<(Seq<char>, BareItemV)>::empty(), e),
    ));
    assert(sp_item(cs, 0) == Some((item, e)));
    assert(ows_end(cs, e) == e);
}

/// Round trip for decimal items in fully canonical form: a decimal stored
/// with exactly 3 fractional digits, the last of them nonzero, an integer
/// part of at most 12 digits, and a positive value when negative,
/// serializes without rounding, and parsing that canonical form yields the
/// same sign, mantissa and scale back.
#[verifier::rlimit(100)]
pub proof fn lemma_decimal_round_trip(neg: bool, m: nat)
    requires
        m % 10 != 0,
        m <= 999_999_999_999_999,
    ensures
        sz_item(
            ItemV {
                bare_item: BareItemV::Decimal((DecimalV { neg, mantissa: m, scale: 3 })),
                params: Seq::<(Seq<char>, BareItemV)>::empty(),
            },
        ) is Some,
        sp_item_field(
            sz_item(
                ItemV {
                    bare_item: BareItemV::Decimal((DecimalV { neg, mantissa: m, scale: 3 })),
                    params: Seq::<(Seq<char>, BareItemV)>::empty(),
                },
            ).unwrap(),
        ) == Some(
            ItemV {
                bare_item: BareItemV::Decimal((DecimalV { neg, mantissa: m, scale: 3 })),
                params: Seq::<(Seq<char>, BareItemV)>::empty(),
            },
        ),
{
    let d = DecimalV { neg, mantissa: m, scale: 3 };
    let item = ItemV {
        bare_item: BareItemV::Decimal(d),
        params: Seq::<(Seq<char>, BareItemV)>::empty(),
    };
    lemma_pow10_small();
    lemma_pow10_large();
    assert(round3(m, 3) == m * 1);
    assert(m * 1 == m);
    let ip = m / 1000;
    let f = m % 1000;
    assert(m == 1000 * ip + f) by {
        vstd::arithmetic::div_mod::lemma_fundamental_div_mod(m as int, 1000);
    }
    assert(f % 10 == m % 10) by (nonlinear_arith)
        requires
            f == m % 1000,
    ;
    let d100 = f / 100;
    let d10 = (f / 10) % 10;
    let d1 = f % 10;
    assert(d1 != 0);
    let fc = frac_chars(f);
    assert(fc == seq![digit_of(d100 as int), digit_of(d10 as int), digit_of(d1 as int)]);
    assert(f == d100 * 100 + d10 * 10 + d1) by (nonlinear_arith)
        requires
            f < 1000,
            d100 == f / 100,
            d10 == (f / 10) % 10,
            d1 == f % 10,
    ;
    assert(sz_bare_item(item.bare_item) is Some);
    assert(sz_params(item.params) == Some(Seq::<char>::empty()));
    let cs = sz_item(item).unwrap();
    let sign: Seq<char> = if neg {
        seq!['-']
    } else {
        Seq::<char>::empty()
    };
    assert(m > 0);
    assert(cs =~= sign + dec_digits(ip) + seq!['.'] + fc);
    let digits = dec_digits(ip);
    let dlen = digits.len() as int;
    lemma_dec_digits_are_digits(ip);
    assert(ip < pow10(12)) by {
        vstd::arithmetic::div_mod::lemma_div_is_ordered(m as int, pow10(15) as int - 1, 1000);
    }
    lemma_dec_digits_len(ip, 12);
    let start: int = if neg {
        1
    } else {
        0
    };
    let e = cs.len() as int;
    assert(e == start + dlen + 4);
    assert forall|t: int| 0 <= t < dlen implies cs[start + t] == digits[t] by {}
    assert(cs.subrange(start, start + dlen) =~= digits);
    assert(cs[start + dlen] == '.');
    assert(cs[start + dlen + 1] == digit_of(d100 as int));
    assert(cs[start + dlen + 2] == digit_of(d10 as int));
    assert(cs[start + dlen + 3] == digit_of(d1 as int));
    assert forall|k: int| start <= k < start + dlen implies digit_char(#[trigger] cs[k]) by {
        assert(cs[k] == digits[k - start]);
    }
    assert(!digit_char('.'));
    lemma_digit_end_of_run(cs, start, start + dlen);
    lemma_digits_val_of_dec_digits(cs, start, ip);
    // the three fractional digit characters
    let a = start + dlen + 1;
    assert(digit_char(cs[a]) && digit_char(cs[a + 1]) && digit_char(cs[a + 2]));
    lemma_digit_end_of_run(cs, a, e);
    assert(digits_val(cs, a, a) == 0);
    assert(digits_val(cs, a, a + 1) == d100);
    assert(digits_val(cs, a, a + 2) == d100 * 10 + d10);
    assert(digits_val(cs, a, a + 3) == (d100 * 10 + d10) * 10 + d1);
    assert(digits_val(cs, a, e) == f);
    // the number parser sees the same pieces
    assert(!ows_char(cs[0]));
    assert(ows_end(cs, 0) == 0);
    if neg {
        assert(cs[0] == '-');
    } else {
        assert(digit_char(cs[0]));
        assert(cs[0] != '-');
    }
    assert(digits_val(cs, start, start + dlen) * pow10(3) + digits_val(cs, a, e) == m);
    assert(sp_number(cs, 0) == Some((BareItemV::Decimal(d), e)));
    assert(sp_bare_item(cs, 0) == Some((BareItemV::Decimal(d), e)));
    assert(sp_params(cs, e, Seq::<(Seq<char>, BareItemV)>::empty()) == Some(
        (Seq::<(Seq<char>, BareItemV)>::empty(), e),
    ));
    assert(sp_item(cs, 0) == Some((item, e)));
    assert(ows_end(cs, e) == e);
}

/// Round trip for string items: an item holding a printable-ASCII string
/// with no parameters serializes with its quotes and escapes, and parsing
/// that canonical form yields the unescaped string back.
pub proof fn lemma_string_round_trip(s: Seq<char>)
    requires
        valid_string_chars(s),
    ensures
        sz_item(
            ItemV { bare_item: BareItemV::String(s), params: Seq::<(Seq<char>, BareItemV)>::empty() },
        ) is Some,
        sp_item_field(
            sz_item(
                ItemV {
                    bare_item: BareItemV::String(s),
                    params: Seq::<(Seq<char>, BareItemV)>::empty(),
                },
            ).unwrap(),
        ) == Some(
            ItemV { bare_item: BareItemV::String(s), params: Seq::<(Seq<char>, BareItemV)>::empty() },
        ),
{
    let item = ItemV {
        bare_item: BareItemV::String(s),
        params: Seq::<(Seq<char>, BareItemV)>::empty(),
    };
    assert(sz_bare_item(item.bare_item) == Some(seq!['"'] + escaped(s) + seq!['"']));
    assert(sz_params(item.params) == Some(Seq::<char>::empty()));
    let cs = sz_item(item).unwrap();
    assert(cs =~= seq!['"'] + escaped(s) + seq!['"']);
    let e = cs.len() as int;
    let elen = escaped(s).len() as int;
    assert(e == elen + 2);
    assert(cs[0] == '"');
    assert(!ows_char(cs[0]));
    assert(ows_end(cs, 0) == 0);
    assert(!digit_char(cs[0]) && cs[0] != '-');
    assert forall|t: int| 0 <= t < elen implies cs.subrange(1, 1 + elen)[t] == escaped(s)[t] by {
        assert(cs[1 + t] == (seq!['"'] + escaped(s) + seq!['"'])[1 + t]);
    }
    assert(cs.subrange(1, 1 + elen) =~= escaped(s));
    assert(cs[1 + elen] == '"');
    lemma_sp_string_body_of_escaped(cs, 1, s, Seq::<char>::empty());
    assert(Seq::<char>::empty() + s =~= s);
    assert(sp_string(cs, 0) == Some((s, e)));
    assert(sp_bare_item(cs, 0) == Some((BareItemV::String(s), e)));
    assert(sp_params(cs, e, Seq::<(Seq<char>, BareItemV)>::empty()) == Some(
        (Seq::<(Seq<char>, BareItemV)>::empty(), e),
    ));
    assert(sp_item(cs, 0) == Some((item, e)));
    assert(ows_end(cs, e) == e);
}

/// Round trip for token items: an item holding a valid token with no
/// parameters serializes verbatim, and parsing that canonical form yields
/// the item back.
pub proof fn lemma_token_round_trip(t: Seq<char>)
    requires
        valid_token(t),
    ensures
        sz_item(
            ItemV { bare_item: BareItemV::Token(t), params: Seq::<(Seq<char>, BareItemV)>::empty() },
        ) is Some,
        sp_item_field(
            sz_item(
                ItemV {
                    bare_item: BareItemV::Token(t),
                    params: Seq::<(Seq<char>, BareItemV)>::empty(),
                },
            ).unwrap(),
        ) == Some(
            ItemV { bare_item: BareItemV::Token(t), params: Seq::<(Seq<char>, BareItemV)>::empty() },
        ),
{
    let item = ItemV {
        bare_item: BareItemV::Token(t),
        params: Seq::<(Seq<char>, BareItemV)>::empty(),
    };
    assert(sz_bare_item(item.bare_item) == Some(t));
    assert(sz_params(item.params) == Some(Seq::<char>::empty()));
    let cs = sz_item(item).unwrap();
    assert(cs =~= t);
    let e = cs.len() as int;
    assert(token_start_char(cs[0]));
    assert(!ows_char(cs[0]));
    assert(ows_end(cs, 0) == 0);
    assert(!digit_char(cs[0]) && cs[0] != '-' && cs[0] != '"' && cs[0] != ':' && cs[0] != '?');
    lemma_token_end_of_run(cs, 1, e);
    assert(cs.subrange(0, e) =~= t);
    assert(sp_token(cs, 0) == Some((BareItemV::Token(t), e)));
    assert(sp_bare_item(cs, 0) == Some((BareItemV::Token(t), e)));
    assert(sp_params(cs, e, Seq::<(Seq<char>, BareItemV)>::empty()) == Some(
        (Seq::<(Seq<char>, BareItemV)>::empty(), e),
    ));
    assert(sp_item(cs, 0) == Some((item, e)));
    assert(ows_end(cs, e) == e);
}

/// Round trip for boolean items: an item holding a boolean with no
/// parameters serializes, and parsing that canonical form yields the item
/// back.
pub proof fn lemma_boolean_round_trip(v: bool)
    ensures
        sz_item(
            ItemV {
                bare_item: BareItemV::Boolean(v),
                params: Seq::<(Seq<char>, BareItemV)>::empty(),
            },
        ) is Some,
        sp_item_field(
            sz_item(
                ItemV {
                    bare_item: BareItemV::Boolean(v),
                    params: Seq::<(Seq<char>, BareItemV)>::empty(),
                },
            ).unwrap(),
        ) == Some(
            ItemV {
                bare_item: BareItemV::Boolean(v),
                params: Seq::<(Seq<char>, BareItemV)>::empty(),
            },
        ),
{
    let item = ItemV {
        bare_item: BareItemV::Boolean(v),
        params: Seq::<(Seq<char>, BareItemV)>::empty(),
    };
    let wire = seq![
        '?',
        if v {
            '1'
        } else {
            '0'
        },
    ];
    assert(sz_params(item.params) == Some(Seq::<char>::empty()));
    assert(sz_item(item).unwrap() =~= wire);
    let cs = sz_item(item).unwrap();
    assert(!ows_char(cs[0]));
    assert(ows_end(cs, 0) == 0);
    assert(!digit_char(cs[0]));
    assert(sp_boolean(cs, 0) == Some((BareItemV::Boolean(v), 2int)));
    assert(sp_bare_item(cs, 0) == Some((BareItemV::Boolean(v), 2int)));
    assert(sp_params(cs, 2, Seq::<(Seq<char>, BareItemV)>::empty()) == Some(
        (Seq::<(Seq<char>, BareItemV)>::empty(), 2int),
    ));
    assert(sp_item(cs, 0) == Some((item, 2int)));
    assert(ows_end(cs, 2) == 2);
}

/// Round trip for integer items: an item holding an in-range integer with
/// no parameters serializes, and parsing that canonical form yields the
/// item back.
pub proof fn lemma_integer_round_trip(i: int)
    requires
        -999_999_999_999_999 <= i <= 999_999_999_999_999,
    ensures
        sz_item(
            ItemV { bare_item: BareItemV::Integer(i), params: Seq::<(Seq<char>, BareItemV)>::empty() },
        ) is Some,
        sp_item_field(
            sz_item(
                ItemV {
                    bare_item: BareItemV::Integer(i),
                    params: Seq::<(Seq<char>, BareItemV)>::empty(),
                },
            ).unwrap(),
        ) == Some(
            ItemV { bare_item: BareItemV::Integer(i), params: Seq::<(Seq<char>, BareItemV)>::empty() },
        ),
{
    let item = ItemV {
        bare_item: BareItemV::Integer(i),
        params: Seq::<(Seq<char>, BareItemV)>::empty(),
    };
    assert(sz_bare_item(item.bare_item) == Some(int_chars(i)));
    assert(sz_params(item.params) == Some(Seq::<char>::empty()));
    let cs = sz_item(item).unwrap();
    assert(cs =~= int_chars(i));
    let mag = if i < 0 {
        (-i) as nat
    } else {
        i as nat
    };
    let digits = dec_digits(mag);
    let len = digits.len() as int;
    lemma_dec_digits_are_digits(mag);
    lemma_pow10_large();
    lemma_dec_digits_len(mag, 15);
    let start: int = if i < 0 {
        1
    } else {
        0
    };
    assert forall|t: int| 0 <= t < len implies cs[start + t] == digits[t] by {
        if i < 0 {
            assert(cs[start + t] == (seq!['-'] + digits)[start + t]);
        }
    }
    assert(cs.subrange(start, start + len) =~= digits);
    assert forall|k: int| start <= k < start + len implies digit_char(#[trigger] cs[k]) by {
        assert(cs[k] == digits[k - start]);
    }
    lemma_digit_end_of_run(cs, start, start + len);
    lemma_digits_val_of_dec_digits(cs, start, mag);
    // leading character: a digit, or the sign
    assert(!ows_char(cs[0]));
    assert(ows_end(cs, 0) == 0);
    if i < 0 {
        assert(cs[0] == '-');
        assert(digit_end(cs, 1) == cs.len());
        assert(digits_val(cs, 1, cs.len() as int) == mag);
        assert(sp_number(cs, 0) == Some((BareItemV::Integer(i), cs.len() as int)));
    } else {
        assert(digit_char(cs[0]));
        assert(cs[0] != '-');
        assert(digit_end(cs, 0) == cs.len());
        assert(digits_val(cs, 0, cs.len() as int) == mag);
        assert(sp_number(cs, 0) == Some((BareItemV::Integer(i), cs.len() as int)));
    }
    assert(sp_bare_item(cs, 0) == Some((BareItemV::Integer(i), cs.len() as int)));
    let e = cs.len() as int;
    assert(sp_params(cs, e, Seq::<(Seq<char>, BareItemV)>::empty()) == Some(
        (Seq::<(Seq<char>, BareItemV)>::empty(), e),
    ));
    assert(sp_item(cs, 0) == Some((item, e)));
    assert(ows_end(cs, e) == e);
}

} // verus!
