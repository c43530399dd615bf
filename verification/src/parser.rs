//! The parser: a single forward cursor over the input bytes, no
//! backtracking. Each entry point consumes the entire input or fails; any
//! grammar violation discards all partially built state and returns a
//! descriptive failure. Every function is proved to return exactly what the
//! grammar functions of [`crate::grammar`] describe.

use vstd::prelude::*;

use crate::grammar::{
    b64_decode, b64_end, digit_end, digits_val, fold_inserts, key_end, lemma_digit_end,
    lemma_digits_val_bounds, sp_bare_item, sp_byteseq, sp_dict_member, sp_dict_member_list,
    sp_dict_members, sp_dictionary, sp_dictionary_from, sp_inner_items, sp_inner_list, sp_item,
    sp_item_field, sp_key, sp_list, sp_list_entry, sp_list_rest, sp_number, sp_params, sp_string,
    sp_string_body, sp_token, token_end,
};
use crate::serializer::{lemma_pow10_large, lemma_pow10_monotone, lemma_pow10_small, pow10,
    pow10_u64};
use crate::utils::{
    decoded, digit_char, is_base64_char, is_digit, is_key_char, is_key_start, is_ows,
    is_printable, is_token_char, is_token_start, ows_end, push_char, skip_ows,
};
use crate::values::{
    items_view, list_view, map_insert, BareItem, BareItemV, Decimal, Dictionary, InnerList, Item,
    ItemV, List, ListEntry, ListEntryV, Num, Parameters,
};

verus! {

/// Cursor past the run of digits starting at `i`.
fn scan_digits(s: &[u8], i: usize) -> (j: usize)
    requires
        i <= s@.len(),
    ensures
        j == digit_end(decoded(s@), i as int),
        i <= j <= s@.len(),
{
    let ghost cs = decoded(s@);
    let mut j: usize = i;
    loop
        invariant
            i <= j <= s@.len(),
            cs == decoded(s@),
            digit_end(cs, i as int) == digit_end(cs, j as int),
        ensures
            i <= j <= s@.len(),
            j == digit_end(cs, i as int),
        decreases s@.len() - j,
    {
        if j < s.len() && is_digit(s[j]) {
            assert(digit_end(cs, j as int) == digit_end(cs, j + 1));
            j = j + 1;
        } else {
            assert(digit_end(cs, j as int) == j as int);
            break ;
        }
    }
    j
}

/// Cursor past the run of base64 characters starting at `i`.
fn scan_b64(s: &[u8], i: usize) -> (j: usize)
    requires
        i <= s@.len(),
    ensures
        j == b64_end(decoded(s@), i as int),
        i <= j <= s@.len(),
{
    let ghost cs = decoded(s@);
    let mut j: usize = i;
    loop
        invariant
            i <= j <= s@.len(),
            cs == decoded(s@),
            b64_end(cs, i as int) == b64_end(cs, j as int),
        ensures
            i <= j <= s@.len(),
            j == b64_end(cs, i as int),
        decreases s@.len() - j,
    {
        if j < s.len() && is_base64_char(s[j]) {
            assert(b64_end(cs, j as int) == b64_end(cs, j + 1));
            j = j + 1;
        } else {
            assert(b64_end(cs, j as int) == j as int);
            break ;
        }
    }
    j
}

/// The value of the digit run in `[i, j)`; at most 15 digits so the value
/// fits.
fn digits_value(s: &[u8], i: usize, j: usize) -> (v: u64)
    requires
        i <= j <= s@.len(),
        j - i <= 15,
        forall|k: int| i <= k < j ==> digit_char(#[trigger] decoded(s@)[k]),
    ensures
        v as int == digits_val(decoded(s@), i as int, j as int),
{
    let ghost cs = decoded(s@);
    let mut m: usize = i;
    let mut v: u64 = 0;
    while m < j
        invariant
            i <= m <= j <= s@.len(),
            j - i <= 15,
            cs == decoded(s@),
            forall|k: int| i <= k < j ==> digit_char(#[trigger] cs[k]),
            v as int == digits_val(cs, i as int, m as int),
            v < pow10((m - i) as nat),
        decreases j - m,
    {
        proof {
            lemma_pow10_large();
            lemma_pow10_monotone((m + 1 - i) as nat, 15);
            assert(pow10((m + 1 - i) as nat) == 10 * pow10((m - i) as nat));
            assert(digit_char(cs[m as int]));
        }
        let d = s[m] - 0x30;
        v = v * 10 + (d as u64);
        m = m + 1;
    }
    v
}

/// A number: integer or decimal, with its digit-count bounds enforced.
fn parse_number(s: &[u8], i: usize) -> (r: Result<(BareItem, usize), &'static str>)
    requires
        i <= s@.len(),
    ensures
        ({
            let sp = sp_number(decoded(s@), i as int);
            &&& r is Ok <==> sp is Some
            &&& r is Ok ==> r.unwrap().0@ == sp.unwrap().0 && r.unwrap().1 == sp.unwrap().1 && i
                < r.unwrap().1 <= s@.len()
        }),
{
    let ghost cs = decoded(s@);
    let neg = i < s.len() && s[i] == 0x2d;
    let i1 = if neg {
        i + 1
    } else {
        i
    };
    let j = scan_digits(s, i1);
    proof {
        lemma_digit_end(cs, i1 as int);
    }
    if j == i1 {
        return Err("parse: expected a digit");
    }
    let n = j - i1;
    if j < s.len() && s[j] == 0x2e {
        if n > 12 {
            return Err("parse: too many digits before the decimal point");
        }
        let k = scan_digits(s, j + 1);
        proof {
            lemma_digit_end(cs, (j + 1) as int);
        }
        let f = k - (j + 1);
        if f < 1 || f > 3 {
            return Err("parse: decimal must have 1 to 3 fractional digits");
        }
        proof {
            lemma_pow10_small();
            lemma_pow10_large();
            lemma_pow10_monotone(f as nat, 3);
            lemma_digits_val_bounds(cs, i1 as int, j as int);
            lemma_digits_val_bounds(cs, (j + 1) as int, k as int);
            lemma_pow10_monotone((j - i1) as nat, 12);
            vstd::arithmetic::mul::lemma_mul_upper_bound(
                digits_val(cs, i1 as int, j as int),
                pow10(12) - 1,
                pow10(f as nat) as int,
                1000,
            );
        }
        let ip = digits_value(s, i1, j);
        let fp = digits_value(s, j + 1, k);
        let pw = pow10_u64(f as u32);
        let mantissa = ip * pw + fp;
        let dec = Decimal { neg, mantissa, scale: f as u32 };
        return Ok((BareItem::Number(Num::Decimal(dec)), k));
    }
    if n > 15 {
        return Err("parse: too many digits in integer");
    }
    proof {
        lemma_pow10_large();
        lemma_pow10_monotone((j - i1) as nat, 15);
        lemma_digits_val_bounds(cs, i1 as int, j as int);
    }
    let v = digits_value(s, i1, j);
    let x: i64 = if neg {
        -(v as i64)
    } else {
        v as i64
    };
    Ok((BareItem::Number(Num::Integer(x)), j))
}

/// A string: `"`, printable characters with `\"` and `\\` escapes, `"`;
/// the returned value is unescaped.
fn parse_string(s: &[u8], i: usize) -> (r: Result<(String, usize), &'static str>)
    requires
        i <= s@.len(),
    ensures
        ({
            let sp = sp_string(decoded(s@), i as int);
            &&& r is Ok <==> sp is Some
            &&& r is Ok ==> r.unwrap().0@ == sp.unwrap().0 && r.unwrap().1 == sp.unwrap().1 && i
                < r.unwrap().1 <= s@.len()
        }),
{
    let ghost cs = decoded(s@);
    if !(i < s.len() && s[i] == 0x22) {
        return Err("parse: expected a string");
    }
    let mut st = String::new();
    let mut j = i + 1;
    loop
        invariant
            i + 1 <= j <= s@.len(),
            i < s@.len(),
            s@[i as int] == 0x22,
            cs == decoded(s@),
            sp_string_body(cs, (i + 1) as int, Seq::<char>::empty()) == sp_string_body(
                cs,
                j as int,
                st@,
            ),
        decreases s@.len() - j,
    {
        if j >= s.len() {
            return Err("parse: unterminated string");
        }
        let b = s[j];
        if b == 0x22 {
            assert(sp_string_body(cs, j as int, st@) == Some((st@, (j + 1) as int)));
            return Ok((st, j + 1));
        } else if b == 0x5c {
            if j + 1 < s.len() && (s[j + 1] == 0x22 || s[j + 1] == 0x5c) {
                let ghost before = st@;
                push_char(&mut st, s[j + 1] as char);
                assert(sp_string_body(cs, j as int, before) == sp_string_body(
                    cs,
                    (j + 2) as int,
                    st@,
                ));
                j = j + 2;
            } else {
                return Err("parse: invalid escape in string");
            }
        } else if is_printable(b) {
            let ghost before = st@;
            push_char(&mut st, b as char);
            assert(sp_string_body(cs, j as int, before) == sp_string_body(
                cs,
                (j + 1) as int,
                st@,
            ));
            j = j + 1;
        } else {
            return Err("parse: character not allowed in string");
        }
    }
}

/// A token: alpha or `*`, then the longest run of token characters.
fn parse_token_at(s: &[u8], i: usize) -> (r: Result<(String, usize), &'static str>)
    requires
        i <= s@.len(),
    ensures
        ({
            let sp = sp_token(decoded(s@), i as int);
            &&& r is Ok <==> sp is Some
            &&& r is Ok ==> BareItemV::Token(r.unwrap().0@) == sp.unwrap().0 && r.unwrap().1
                == sp.unwrap().1 && i < r.unwrap().1 <= s@.len()
        }),
{
    let ghost cs = decoded(s@);
    if !(i < s.len() && is_token_start(s[i])) {
        return Err("parse: expected a token");
    }
    let mut st = String::new();
    push_char(&mut st, s[i] as char);
    proof {
        assert(st@ =~= cs.subrange(i as int, (i + 1) as int));
    }
    let mut j = i + 1;
    loop
        invariant
            i + 1 <= j <= s@.len(),
            cs == decoded(s@),
            token_end(cs, (i + 1) as int) == token_end(cs, j as int),
            st@ == cs.subrange(i as int, j as int),
        ensures
            i + 1 <= j <= s@.len(),
            j == token_end(cs, (i + 1) as int),
            st@ == cs.subrange(i as int, j as int),
        decreases s@.len() - j,
    {
        if j < s.len() && is_token_char(s[j]) {
            assert(token_end(cs, j as int) == token_end(cs, j + 1));
            let ghost before = st@;
            push_char(&mut st, s[j] as char);
            proof {
                assert(st@ =~= cs.subrange(i as int, j + 1));
            }
            j = j + 1;
        } else {
            assert(token_end(cs, j as int) == j as int);
            break ;
        }
    }
    Ok((st, j))
}

/// A key: lowercase alpha or `*`, then the longest run of key characters.
fn parse_key_at(s: &[u8], i: usize) -> (r: Result<(String, usize), &'static str>)
    requires
        i <= s@.len(),
    ensures
        ({
            let sp = sp_key(decoded(s@), i as int);
            &&& r is Ok <==> sp is Some
            &&& r is Ok ==> r.unwrap().0@ == sp.unwrap().0 && r.unwrap().1 == sp.unwrap().1 && i
                < r.unwrap().1 <= s@.len()
        }),
{
    let ghost cs = decoded(s@);
    if !(i < s.len() && is_key_start(s[i])) {
        return Err("parse: expected a key");
    }
    let mut st = String::new();
    push_char(&mut st, s[i] as char);
    proof {
        assert(st@ =~= cs.subrange(i as int, (i + 1) as int));
    }
    let mut j = i + 1;
    loop
        invariant
            i + 1 <= j <= s@.len(),
            cs == decoded(s@),
            key_end(cs, (i + 1) as int) == key_end(cs, j as int),
            st@ == cs.subrange(i as int, j as int),
        ensures
            i + 1 <= j <= s@.len(),
            j == key_end(cs, (i + 1) as int),
            st@ == cs.subrange(i as int, j as int),
        decreases s@.len() - j,
    {
        if j < s.len() && is_key_char(s[j]) {
            assert(key_end(cs, j as int) == key_end(cs, j + 1));
            let ghost before = st@;
            push_char(&mut st, s[j] as char);
            proof {
                assert(st@ =~= cs.subrange(i as int, j + 1));
            }
            j = j + 1;
        } else {
            assert(key_end(cs, j as int) == j as int);
            break ;
        }
    }
    Ok((st, j))
}

/// The sextet of one base64 character, -1 outside the alphabet.
fn sextet_exec(b: u8) -> (r: i16)
    ensures
        r as int == crate::grammar::sextet_of(b as char),
{
    if 0x41 <= b && b <= 0x5a {
        (b - 0x41) as i16
    } else if 0x61 <= b && b <= 0x7a {
        (b - 0x61) as i16 + 26
    } else if 0x30 <= b && b <= 0x39 {
        (b - 0x30) as i16 + 52
    } else if b == 0x2b {
        62
    } else if b == 0x2f {
        63
    } else {
        -1
    }
}

/// A byte sequence: base64 with padding between `:` delimiters.
fn parse_byteseq(s: &[u8], i: usize) -> (r: Result<(Vec<u8>, usize), &'static str>)
    requires
        i <= s@.len(),
    ensures
        ({
            let sp = sp_byteseq(decoded(s@), i as int);
            &&& r is Ok <==> sp is Some
            &&& r is Ok ==> BareItemV::ByteSeq(r.unwrap().0@) == sp.unwrap().0 && r.unwrap().1
                == sp.unwrap().1 && i < r.unwrap().1 <= s@.len()
        }),
{
    let ghost cs = decoded(s@);
    if !(i < s.len() && s[i] == 0x3a) {
        return Err("parse: expected a byte sequence");
    }
    let j = scan_b64(s, i + 1);
    if !(j < s.len() && s[j] == 0x3a) {
        return Err("parse: unterminated byte sequence");
    }
    let ghost region = cs.subrange((i + 1) as int, j as int);
    let rlen = j - (i + 1);
    if rlen % 4 != 0 {
        proof {
            assert(region.len() != 0);
            assert(b64_decode(region) is None);
        }
        return Err("parse: invalid base64 length");
    }
    let mut out: Vec<u8> = Vec::new();
    let mut pos = i + 1;
    proof {
        assert(region.skip(0) =~= region);
    }
    loop
        invariant
            i + 1 <= pos <= j <= s@.len(),
            (pos - (i + 1)) % 4 == 0,
            (j - (i + 1)) % 4 == 0,
            i < s@.len(),
            s@[i as int] == 0x3a,
            s@[j as int] == 0x3a,
            j == b64_end(cs, (i + 1) as int),
            cs == decoded(s@),
            region == cs.subrange((i + 1) as int, j as int),
            b64_decode(region) == (match b64_decode(region.skip((pos - (i + 1)) as int)) {
                None => None::<Seq<u8>>,
                Some(t) => Some(out@ + t),
            }),
        ensures
            pos == j,
            b64_decode(region) == Some(out@),
        decreases j - pos,
    {
        let ghost g = region.skip((pos - (i + 1)) as int);
        if pos == j {
            proof {
                assert(g.len() == 0);
                assert(b64_decode(g) == Some(Seq::<u8>::empty()));
                assert(out@ + Seq::<u8>::empty() =~= out@);
            }
            break ;
        }
        proof {
            assert(g.len() == j - pos);
            assert(g.len() % 4 == 0);
            assert(g.len() >= 4);
            assert forall|t: int| 0 <= t < g.len() implies g[t] == cs[pos + t] by {}
        }
        let b0 = s[pos];
        let b1 = s[pos + 1];
        let b2 = s[pos + 2];
        let b3 = s[pos + 3];
        proof {
            assert(g[0] == cs[pos as int] && g[1] == cs[pos + 1] && g[2] == cs[pos + 2] && g[3]
                == cs[pos + 3]);
        }
        let s0 = sextet_exec(b0);
        let s1 = sextet_exec(b1);
        let last = pos + 4 == j;
        proof {
            assert(last <==> g.len() == 4);
        }
        if s0 < 0 || s1 < 0 {
            return Err("parse: invalid base64 character");
        }
        let ghost gnext = region.skip((pos + 4 - (i + 1)) as int);
        proof {
            assert(g.skip(4) =~= gnext);
        }
        if b2 == 0x3d {
            if !(last && b3 == 0x3d && s1 % 16 == 0) {
                return Err("parse: invalid base64 padding");
            }
            let v0 = (s0 * 4 + s1 / 16) as u8;
            let ghost obefore = out@;
            out.push(v0);
            pos = pos + 4;
            proof {
                assert(b64_decode(g) == Some(seq![v0] + b64_decode(gnext).unwrap()));
                assert(obefore + (seq![v0] + b64_decode(gnext).unwrap()) =~= out@ + b64_decode(
                    gnext,
                ).unwrap());
            }
        } else if b3 == 0x3d {
            let s2 = sextet_exec(b2);
            if !(last && s2 >= 0 && s2 % 4 == 0) {
                return Err("parse: invalid base64 padding");
            }
            let v0 = (s0 * 4 + s1 / 16) as u8;
            let v1 = ((s1 % 16) * 16 + s2 / 4) as u8;
            let ghost obefore = out@;
            out.push(v0);
            out.push(v1);
            pos = pos + 4;
            proof {
                assert(b64_decode(g) == Some(seq![v0, v1] + b64_decode(gnext).unwrap()));
                assert(obefore + (seq![v0, v1] + b64_decode(gnext).unwrap()) =~= out@
                    + b64_decode(gnext).unwrap());
            }
        } else {
            let s2 = sextet_exec(b2);
            let s3 = sextet_exec(b3);
            if s2 < 0 || s3 < 0 {
                return Err("parse: invalid base64 character");
            }
            let v0 = (s0 * 4 + s1 / 16) as u8;
            let v1 = ((s1 % 16) * 16 + s2 / 4) as u8;
            let v2 = ((s2 % 4) * 64 + s3) as u8;
            let ghost obefore = out@;
            out.push(v0);
            out.push(v1);
            out.push(v2);
            pos = pos + 4;
            proof {
                assert(b64_decode(g) is Some ==> b64_decode(g) == Some(seq![v0, v1, v2]
                    + b64_decode(gnext).unwrap()));
                assert(b64_decode(gnext) is Some ==> obefore + (seq![v0, v1, v2] + b64_decode(
                    gnext,
                ).unwrap()) =~= out@ + b64_decode(gnext).unwrap());
            }
        }
    }
    Ok((out, j + 1))
}

/// A bare item, dispatched on its first significant byte.
fn parse_bare_item(s: &[u8], i: usize) -> (r: Result<(BareItem, usize), &'static str>)
    requires
        i <= s@.len(),
    ensures
        ({
            let sp = sp_bare_item(decoded(s@), i as int);
            &&& r is Ok <==> sp is Some
            &&& r is Ok ==> r.unwrap().0@ == sp.unwrap().0 && r.unwrap().1 == sp.unwrap().1 && i
                < r.unwrap().1 <= s@.len()
        }),
{
    let ghost cs = decoded(s@);
    if i >= s.len() {
        return Err("parse: expected a bare item");
    }
    let b = s[i];
    if b == 0x2d || is_digit(b) {
        parse_number(s, i)
    } else if b == 0x22 {
        match parse_string(s, i) {
            Ok((st, j)) => Ok((BareItem::String(st), j)),
            Err(e) => Err(e),
        }
    } else if b == 0x3a {
        match parse_byteseq(s, i) {
            Ok((v, j)) => Ok((BareItem::ByteSeq(v), j)),
            Err(e) => Err(e),
        }
    } else if b == 0x3f {
        if i + 1 < s.len() && (s[i + 1] == 0x30 || s[i + 1] == 0x31) {
            Ok((BareItem::Boolean(s[i + 1] == 0x31), i + 2))
        } else {
            Err("parse: invalid boolean")
        }
    } else if is_token_start(b) {
        match parse_token_at(s, i) {
            Ok((st, j)) => Ok((BareItem::Token(st), j)),
            Err(e) => Err(e),
        }
    } else {
        Err("parse: unrecognized bare item")
    }
}

/// Parameters: `;`-introduced key/value pairs; a repeated key updates the
/// existing slot in place.
fn parse_params(s: &[u8], i: usize) -> (r: Result<(Parameters, usize), &'static str>)
    requires
        i <= s@.len(),
    ensures
        ({
            let sp = sp_params(decoded(s@), i as int, Seq::<(Seq<char>, BareItemV)>::empty());
            &&& r is Ok <==> sp is Some
            &&& r is Ok ==> r.unwrap().0@ == sp.unwrap().0 && r.unwrap().1 == sp.unwrap().1 && i
                <= r.unwrap().1 <= s@.len()
        }),
{
    let ghost cs = decoded(s@);
    let mut ps = Parameters::new();
    let mut j = i;
    proof {
        assert(ps@ =~= Seq::<(Seq<char>, BareItemV)>::empty());
    }
    loop
        invariant
            i <= j <= s@.len(),
            cs == decoded(s@),
            sp_params(cs, i as int, Seq::<(Seq<char>, BareItemV)>::empty()) == sp_params(
                cs,
                j as int,
                ps@,
            ),
        decreases s@.len() - j,
    {
        if j < s.len() && s[j] == 0x3b {
            let j1 = skip_ows(s, j + 1);
            let key = match parse_key_at(s, j1) {
                Ok(kv) => kv,
                Err(e) => {
                    assert(sp_params(cs, j as int, ps@) is None);
                    return Err(e);
                },
            };
            let ghost psb = ps@;
            if key.1 < s.len() && s[key.1] == 0x3d {
                let bv = match parse_bare_item(s, key.1 + 1) {
                    Ok(v) => v,
                    Err(e) => {
                        assert(sp_params(cs, j as int, ps@) is None);
                        return Err(e);
                    },
                };
                let ghost kview = key.0@;
                let ghost vview = bv.0@;
                ps.insert(key.0, bv.0);
                proof {
                    assert(ps@ == map_insert(psb, kview, vview));
                    assert(sp_params(cs, j as int, psb) == sp_params(cs, bv.1 as int, ps@));
                }
                j = bv.1;
            } else {
                let ghost kview = key.0@;
                ps.insert(key.0, BareItem::Boolean(true));
                proof {
                    assert(ps@ == map_insert(psb, kview, BareItemV::Boolean(true)));
                    assert(sp_params(cs, j as int, psb) == sp_params(cs, key.1 as int, ps@));
                }
                j = key.1;
            }
        } else {
            assert(sp_params(cs, j as int, ps@) == Some((ps@, j as int)));
            return Ok((ps, j));
        }
    }
}

/// An item: a bare item, then its parameters.
fn parse_item_at(s: &[u8], i: usize) -> (r: Result<(Item, usize), &'static str>)
    requires
        i <= s@.len(),
    ensures
        ({
            let sp = sp_item(decoded(s@), i as int);
            &&& r is Ok <==> sp is Some
            &&& r is Ok ==> r.unwrap().0@ == sp.unwrap().0 && r.unwrap().1 == sp.unwrap().1 && i
                < r.unwrap().1 <= s@.len()
        }),
{
    let b = match parse_bare_item(s, i) {
        Ok(v) => v,
        Err(e) => {
            return Err(e);
        },
    };
    let p = match parse_params(s, b.1) {
        Ok(v) => v,
        Err(e) => {
            return Err(e);
        },
    };
    Ok((Item { bare_item: b.0, params: p.0 }, p.1))
}

/// An inner list: `(`, whitespace-separated items, `)`, then its own
/// parameters.
fn parse_inner_list_at(s: &[u8], i: usize) -> (r: Result<(InnerList, usize), &'static str>)
    requires
        i <= s@.len(),
    ensures
        ({
            let sp = sp_inner_list(decoded(s@), i as int);
            &&& r is Ok <==> sp is Some
            &&& r is Ok ==> r.unwrap().0@ == sp.unwrap().0 && r.unwrap().1 == sp.unwrap().1 && i
                < r.unwrap().1 <= s@.len()
        }),
{
    let ghost cs = decoded(s@);
    if !(i < s.len() && s[i] == 0x28) {
        return Err("parse: expected an inner list");
    }
    let mut items: Vec<Item> = Vec::new();
    let mut j = i + 1;
    proof {
        assert(items_view(items@) =~= Seq::<ItemV>::empty());
    }
    loop
        invariant_except_break
            sp_inner_items(cs, (i + 1) as int, Seq::<ItemV>::empty()) == sp_inner_items(
                cs,
                j as int,
                items_view(items@),
            ),
        invariant
            i + 1 <= j <= s@.len(),
            i < s@.len(),
            s@[i as int] == 0x28,
            cs == decoded(s@),
        ensures
            j <= s@.len(),
            sp_inner_items(cs, (i + 1) as int, Seq::<ItemV>::empty()) == Some(
                (items_view(items@), j as int),
            ),
        decreases s@.len() - j,
    {
        let j1 = skip_ows(s, j);
        if j1 >= s.len() {
            assert(sp_inner_items(cs, j as int, items_view(items@)) is None);
            return Err("parse: unterminated inner list");
        }
        if s[j1] == 0x29 {
            assert(sp_inner_items(cs, j as int, items_view(items@)) == Some(
                (items_view(items@), (j1 + 1) as int),
            ));
            j = j1 + 1;
            break ;
        }
        let it = match parse_item_at(s, j1) {
            Ok(v) => v,
            Err(e) => {
                assert(sp_inner_items(cs, j as int, items_view(items@)) is None);
                return Err(e);
            },
        };
        if !(it.1 < s.len() && (is_ows(s[it.1]) || s[it.1] == 0x29)) {
            assert(sp_inner_items(cs, j as int, items_view(items@)) is None);
            return Err("parse: expected a space or ')' after an inner-list item");
        }
        let ghost ivb = items_view(items@);
        let ghost itv = it.0@;
        items.push(it.0);
        proof {
            assert(items_view(items@) =~= ivb.push(itv));
            assert(sp_inner_items(cs, j as int, ivb) == sp_inner_items(
                cs,
                it.1 as int,
                items_view(items@),
            ));
        }
        j = it.1;
    }
    let p = match parse_params(s, j) {
        Ok(v) => v,
        Err(e) => {
            return Err(e);
        },
    };
    Ok((InnerList { items, params: p.0 }, p.1))
}

/// A list or dictionary member: an inner list where `(` follows, an item
/// otherwise.
fn parse_list_entry_at(s: &[u8], i: usize) -> (r: Result<(ListEntry, usize), &'static str>)
    requires
        i <= s@.len(),
    ensures
        ({
            let sp = sp_list_entry(decoded(s@), i as int);
            &&& r is Ok <==> sp is Some
            &&& r is Ok ==> r.unwrap().0@ == sp.unwrap().0 && r.unwrap().1 == sp.unwrap().1 && i
                < r.unwrap().1 <= s@.len()
        }),
{
    if i < s.len() && s[i] == 0x28 {
        match parse_inner_list_at(s, i) {
            Ok((l, j)) => Ok((ListEntry::InnerList(l), j)),
            Err(e) => Err(e),
        }
    } else {
        match parse_item_at(s, i) {
            Ok((it, j)) => Ok((ListEntry::Item(it), j)),
            Err(e) => Err(e),
        }
    }
}

/// Parses one whole field as an item: optional whitespace around it,
/// nothing else before or after.
pub fn parse_item(bytes: &[u8]) -> (r: Result<Item, &'static str>)
    ensures
        r is Ok <==> sp_item_field(decoded(bytes@)) is Some,
        r is Ok ==> r.unwrap()@ == sp_item_field(decoded(bytes@)).unwrap(),
{
    let ghost cs = decoded(bytes@);
    let i0 = skip_ows(bytes, 0);
    let it = match parse_item_at(bytes, i0) {
        Ok(v) => v,
        Err(e) => {
            return Err(e);
        },
    };
    let k = skip_ows(bytes, it.1);
    if k < bytes.len() {
        return Err("parse: trailing characters after item");
    }
    Ok(it.0)
}

/// Parses members from `bytes` and appends them to an existing list,
/// modeling the combination of repeated occurrences of one field. An empty
/// or all-whitespace chunk appends nothing; on failure the list is
/// unchanged.
pub fn parse_more_list(list: &mut List, bytes: &[u8]) -> (r: Result<(), &'static str>)
    ensures
        ({
            let sp = sp_list(decoded(bytes@));
            &&& r is Ok <==> sp is Some
            &&& r is Ok ==> list_view(final(list)@) == list_view(old(list)@) + sp.unwrap()
            &&& r is Err ==> final(list)@ == old(list)@
        }),
{
    let ghost cs = decoded(bytes@);
    let i0 = skip_ows(bytes, 0);
    if i0 >= bytes.len() {
        proof {
            assert(list_view(list@) + Seq::<ListEntryV>::empty() =~= list_view(list@));
        }
        return Ok(());
    }
    let mut acc: Vec<ListEntry> = Vec::new();
    let mut j = i0;
    proof {
        assert(list_view(acc@) =~= Seq::<ListEntryV>::empty());
    }
    loop
        invariant_except_break
            sp_list_rest(cs, i0 as int, Seq::<ListEntryV>::empty()) == sp_list_rest(
                cs,
                j as int,
                list_view(acc@),
            ),
        invariant
            i0 <= j <= bytes@.len(),
            i0 == ows_end(cs, 0),
            i0 < cs.len(),
            cs == decoded(bytes@),
        ensures
            sp_list_rest(cs, i0 as int, Seq::<ListEntryV>::empty()) == Some(list_view(acc@)),
        decreases bytes@.len() - j,
    {
        let ghost avb = list_view(acc@);
        let e = match parse_list_entry_at(bytes, j) {
            Ok(v) => v,
            Err(er) => {
                assert(sp_list_rest(cs, j as int, avb) is None);
                return Err(er);
            },
        };
        let ghost ev = e.0@;
        acc.push(e.0);
        proof {
            assert(list_view(acc@) =~= avb.push(ev));
        }
        let k = skip_ows(bytes, e.1);
        if k >= bytes.len() {
            assert(sp_list_rest(cs, j as int, avb) == Some(list_view(acc@)));
            break ;
        }
        if bytes[k] != 0x2c {
            assert(sp_list_rest(cs, j as int, avb) is None);
            return Err("parse: expected ',' between list members");
        }
        let m = skip_ows(bytes, k + 1);
        if m >= bytes.len() {
            assert(sp_list_rest(cs, j as int, avb) is None);
            return Err("parse: trailing comma");
        }
        proof {
            assert(sp_list_rest(cs, j as int, avb) == sp_list_rest(
                cs,
                m as int,
                list_view(acc@),
            ));
        }
        j = m;
    }
    let ghost base = list_view(list@);
    list.append(&mut acc);
    proof {
        assert(list_view(final(list)@) =~= base + sp_list(cs).unwrap());
    }
    Ok(())
}

/// Parses one whole field as a list; empty or all-whitespace input yields
/// the empty list.
pub fn parse_list(bytes: &[u8]) -> (r: Result<List, &'static str>)
    ensures
        r is Ok <==> sp_list(decoded(bytes@)) is Some,
        r is Ok ==> list_view(r.unwrap()@) == sp_list(decoded(bytes@)).unwrap(),
{
    let mut l: List = Vec::new();
    proof {
        assert(list_view(l@) =~= Seq::<ListEntryV>::empty());
    }
    match parse_more_list(&mut l, bytes) {
        Ok(()) => {
            proof {
                assert(Seq::<ListEntryV>::empty() + sp_list(decoded(bytes@)).unwrap()
                    =~= sp_list(decoded(bytes@)).unwrap());
            }
            Ok(l)
        },
        Err(e) => Err(e),
    }
}

/// The model of a sequence of raw key-member pairs.
pub open spec fn kv_view(es: Seq<(String, ListEntry)>) -> Seq<(Seq<char>, ListEntryV)> {
    Seq::new(es.len(), |t: int| (es[t].0@, es[t].1@))
}

/// One dictionary member: a key, then `=` and a member value, or the
/// parameters of an implicit boolean-true item.
fn parse_dict_member_at(s: &[u8], i: usize) -> (r: Result<
    ((String, ListEntry), usize),
    &'static str,
>)
    requires
        i <= s@.len(),
    ensures
        ({
            let sp = sp_dict_member(decoded(s@), i as int);
            &&& r is Ok <==> sp is Some
            &&& r is Ok ==> (r.unwrap().0.0@, r.unwrap().0.1@) == sp.unwrap().0 && r.unwrap().1
                == sp.unwrap().1 && i < r.unwrap().1 <= s@.len()
        }),
{
    let k = match parse_key_at(s, i) {
        Ok(v) => v,
        Err(e) => {
            return Err(e);
        },
    };
    if k.1 < s.len() && s[k.1] == 0x3d {
        let e = match parse_list_entry_at(s, k.1 + 1) {
            Ok(v) => v,
            Err(er) => {
                return Err(er);
            },
        };
        Ok(((k.0, e.0), e.1))
    } else {
        let p = match parse_params(s, k.1) {
            Ok(v) => v,
            Err(er) => {
                return Err(er);
            },
        };
        Ok(((k.0, ListEntry::Item(Item { bare_item: BareItem::Boolean(true), params: p.0 })), p.1))
    }
}

/// Parses members from `bytes` into an existing dictionary, modeling the
/// combination of repeated occurrences of one field: members are inserted
/// in order, a repeated key updating the existing slot in place. An empty
/// or all-whitespace chunk appends nothing; on failure the dictionary is
/// unchanged.
pub fn parse_more_dictionary(dict: &mut Dictionary, bytes: &[u8]) -> (r: Result<
    (),
    &'static str,
>)
    ensures
        ({
            let sp = sp_dictionary_from(decoded(bytes@), old(dict)@);
            &&& r is Ok <==> sp is Some
            &&& r is Ok ==> final(dict)@ == sp.unwrap()
            &&& r is Err ==> final(dict)@ == old(dict)@
        }),
{
    let ghost cs = decoded(bytes@);
    let i0 = skip_ows(bytes, 0);
    let mut raw: Vec<(String, ListEntry)> = Vec::new();
    proof {
        assert(kv_view(raw@) =~= Seq::<(Seq<char>, ListEntryV)>::empty());
    }
    if i0 < bytes.len() {
        let mut j = i0;
        loop
            invariant_except_break
                sp_dict_members(cs, i0 as int, Seq::<(Seq<char>, ListEntryV)>::empty())
                    == sp_dict_members(cs, j as int, kv_view(raw@)),
            invariant
                i0 <= j <= bytes@.len(),
                i0 == ows_end(cs, 0),
                i0 < cs.len(),
                cs == decoded(bytes@),
            ensures
                sp_dict_members(cs, i0 as int, Seq::<(Seq<char>, ListEntryV)>::empty()) == Some(
                    kv_view(raw@),
                ),
            decreases bytes@.len() - j,
        {
            let ghost rvb = kv_view(raw@);
            let kv = match parse_dict_member_at(bytes, j) {
                Ok(v) => v,
                Err(er) => {
                    assert(sp_dict_members(cs, j as int, rvb) is None);
                    return Err(er);
                },
            };
            let ghost kvv = (kv.0.0@, kv.0.1@);
            raw.push(kv.0);
            proof {
                assert(kv_view(raw@) =~= rvb.push(kvv));
            }
            let k = skip_ows(bytes, kv.1);
            if k >= bytes.len() {
                assert(sp_dict_members(cs, j as int, rvb) == Some(kv_view(raw@)));
                break ;
            }
            if bytes[k] != 0x2c {
                assert(sp_dict_members(cs, j as int, rvb) is None);
                return Err("parse: expected ',' between dictionary members");
            }
            let m = skip_ows(bytes, k + 1);
            if m >= bytes.len() {
                assert(sp_dict_members(cs, j as int, rvb) is None);
                return Err("parse: trailing comma");
            }
            proof {
                assert(sp_dict_members(cs, j as int, rvb) == sp_dict_members(
                    cs,
                    m as int,
                    kv_view(raw@),
                ));
            }
            j = m;
        }
    }
    let ghost ms = kv_view(raw@);
    let ghost base = dict@;
    proof {
        assert(sp_dict_member_list(cs) == Some(ms));
        assert(ms.take(0) =~= Seq::<(Seq<char>, ListEntryV)>::empty());
        assert(ms.skip(0) =~= ms);
    }
    let total = raw.len();
    let mut done: usize = 0;
    while done < total
        invariant
            done <= total == ms.len(),
            done + raw@.len() == total,
            kv_view(raw@) == ms.skip(done as int),
            dict@ == fold_inserts(base, ms.take(done as int)),
        decreases total - done,
    {
        let ghost rawb = raw@;
        let kv = raw.remove(0);
        proof {
            assert(kv_view(rawb)[0] == (kv.0@, kv.1@));
            assert(ms[done as int] == (kv.0@, kv.1@));
            assert(raw@ =~= rawb.subrange(1, rawb.len() as int));
            assert forall|t: int| 0 <= t < kv_view(raw@).len() implies kv_view(raw@)[t] == ms.skip(
                done + 1,
            )[t] by {
                assert(raw@[t] == rawb[t + 1]);
                assert(kv_view(rawb)[t + 1] == ms.skip(done as int)[t + 1]);
            }
            assert(kv_view(raw@) =~= ms.skip(done + 1));
        }
        let ghost dictb = dict@;
        dict.insert(kv.0, kv.1);
        proof {
            let t = ms.take(done + 1);
            assert(t.drop_last() =~= ms.take(done as int));
            assert(t.last() == ms[done as int]);
            assert(fold_inserts(base, t) == map_insert(
                fold_inserts(base, ms.take(done as int)),
                ms[done as int].0,
                ms[done as int].1,
            ));
        }
        done = done + 1;
    }
    proof {
        assert(ms.take(total as int) =~= ms);
    }
    Ok(())
}

/// Parses one whole field as a dictionary; empty or all-whitespace input
/// yields the empty dictionary.
pub fn parse_dictionary(bytes: &[u8]) -> (r: Result<Dictionary, &'static str>)
    ensures
        r is Ok <==> sp_dictionary(decoded(bytes@)) is Some,
        r is Ok ==> r.unwrap()@ == sp_dictionary(decoded(bytes@)).unwrap(),
{
    let mut d = Dictionary::new();
    match parse_more_dictionary(&mut d, bytes) {
        Ok(()) => Ok(d),
        Err(e) => Err(e),
    }
}

} // verus!
