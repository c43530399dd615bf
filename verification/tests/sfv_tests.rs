use rust_decimal::prelude::FromPrimitive;
use sfv::{
    parse_dictionary, parse_item, parse_list, parse_more_dictionary, parse_more_list,
    serialize_list, BareItem, Decimal, Dictionary, InnerList, Item, ListEntry, Num, Parameters,
};

#[test]
fn integer_bound_15_digits_parses() {
    let item = parse_item(b"999999999999999").unwrap();
    assert_eq!(item.bare_item, BareItem::Number(Num::Integer(999999999999999)));
    assert_eq!(item.serialize_value().unwrap(), "999999999999999");
}

#[test]
fn integer_16_digits_fails() {
    assert!(parse_item(b"1000000000000000").is_err());
}

#[test]
fn negative_integer_bound() {
    let item = parse_item(b"-999999999999999").unwrap();
    assert_eq!(item.bare_item, BareItem::Number(Num::Integer(-999999999999999)));
    assert!(parse_item(b"-1000000000000000").is_err());
}

#[test]
fn decimal_13_integer_digits_fails() {
    assert!(parse_item(b"1234567890123.1").is_err());
}

#[test]
fn decimal_12_integer_digits_parses() {
    let item = parse_item(b"123456789012.1").unwrap();
    assert_eq!(item.serialize_value().unwrap(), "123456789012.1");
}

#[test]
fn decimal_rounds_half_to_even_at_three_digits() {
    let mut params = Parameters::new();
    let decimal = Decimal::new(false, 1345655, 5); // 13.45655
    params.insert("key".into(), decimal.into());
    let int_item = Item::with_params(99.into(), params);
    assert_eq!(int_item.serialize_value().unwrap(), "99;key=13.457");
}

#[test]
fn decimal_half_even_ties() {
    // 1.2345 -> quotient 1234 is even, so the tie rounds down
    let down = Item::new(BareItem::from(Decimal::new(false, 12345, 4)));
    assert_eq!(down.serialize_value().unwrap(), "1.234");
    // 1.2355 -> quotient 1235 is odd, so the tie rounds up
    let up = Item::new(BareItem::from(Decimal::new(false, 12355, 4)));
    assert_eq!(up.serialize_value().unwrap(), "1.236");
}

#[test]
fn decimal_negative_rounding_to_zero_drops_sign() {
    let item = Item::new(BareItem::from(Decimal::new(true, 1, 5))); // -0.00001
    assert_eq!(item.serialize_value().unwrap(), "0.0");
}

#[test]
fn decimal_trailing_zeros_dropped_but_one_digit_kept() {
    let item = Item::new(BareItem::from(Decimal::new(false, 45, 3))); // 0.045
    assert_eq!(item.serialize_value().unwrap(), "0.045");
    let item2 = Item::new(BareItem::from(Decimal::new(false, 4500, 3))); // 4.5
    assert_eq!(item2.serialize_value().unwrap(), "4.5");
    let item3 = Item::new(BareItem::from(Decimal::new(false, 4000, 3))); // 4.0
    assert_eq!(item3.serialize_value().unwrap(), "4.0");
}

#[test]
fn decimal_from_outside_crate_matches() {
    let d = rust_decimal::Decimal::from_f64(13.45655).unwrap();
    let dec = Decimal::new(d.is_sign_negative(), d.mantissa().unsigned_abs() as u64, d.scale());
    let item = Item::new(BareItem::from(dec));
    assert_eq!(item.serialize_value().unwrap(), "13.457");
}

#[test]
fn list_with_inner_list_serializes() {
    let tok_item = BareItem::Token("tok".into());

    let str_item = Item::new(BareItem::String(String::from("foo")));

    let mut int_item_params = Parameters::new();
    int_item_params.insert("key".into(), BareItem::Boolean(false));
    let int_item = Item::with_params(99.into(), int_item_params);

    let mut inner_list_params = Parameters::new();
    inner_list_params.insert("bar".into(), BareItem::Boolean(true));
    let inner_list = InnerList::with_params(vec![int_item, str_item], inner_list_params);

    let list: sfv::List = vec![Item::new(tok_item).into(), inner_list.into()];
    assert_eq!(serialize_list(&list).unwrap(), "tok, (99;key=?0 \"foo\");bar");
}

#[test]
fn dictionary_inserts_serialize() {
    let member_value1 = Item::new(BareItem::String(String::from("apple")));
    let member_value2 = Item::new(BareItem::Boolean(true));
    let member_value3 = Item::new(BareItem::Boolean(false));

    let mut dict = Dictionary::new();
    dict.insert("key1".into(), member_value1.into());
    dict.insert("key2".into(), member_value2.into());
    dict.insert("key3".into(), member_value3.into());

    assert_eq!(dict.serialize_value().unwrap(), "key1=\"apple\", key2, key3=?0");
}

#[test]
fn dictionary_duplicate_key_updates_in_place() {
    let dict = parse_dictionary(b"a=1, a=2").unwrap();
    assert_eq!(dict.len(), 1);
    let entry = dict.get(&String::from("a")).unwrap();
    assert_eq!(
        *entry,
        ListEntry::Item(Item::new(BareItem::Number(Num::Integer(2))))
    );
}

#[test]
fn dictionary_duplicate_key_keeps_first_position() {
    let dict = parse_dictionary(b"a=1, b=2, a=3").unwrap();
    assert_eq!(dict.len(), 2);
    assert_eq!(dict.serialize_value().unwrap(), "a=3, b=2");
}

#[test]
fn empty_and_whitespace_inputs_yield_empty_collections() {
    assert_eq!(parse_list(b"").unwrap().len(), 0);
    assert_eq!(parse_list(b"   \t ").unwrap().len(), 0);
    let d = parse_dictionary(b"").unwrap();
    assert!(d.is_empty());
    let d2 = parse_dictionary(b" \t  ").unwrap();
    assert!(d2.is_empty());
}

#[test]
fn trailing_comma_fails() {
    assert!(parse_list(b"tok,").is_err());
    assert!(parse_list(b"tok, ").is_err());
    assert!(parse_dictionary(b"a=1,").is_err());
}

#[test]
fn empty_input_item_fails() {
    assert!(parse_item(b"").is_err());
    assert!(parse_item(b"  ").is_err());
}

#[test]
fn malformed_boolean_rejected() {
    assert!(parse_item(b"?2").is_err());
    assert!(parse_item(b"?").is_err());
}

#[test]
fn unterminated_string_rejected() {
    assert!(parse_item(b"\"abc").is_err());
    assert!(parse_item(b"\"abc\\").is_err());
}

#[test]
fn bad_escape_rejected() {
    assert!(parse_item(b"\"a\\b\"").is_err());
}

#[test]
fn control_character_in_string_rejected() {
    assert!(parse_item(b"\"a\x07b\"").is_err());
}

#[test]
fn token_starting_with_digit_is_not_a_token() {
    // a digit dispatches to the number parser, so the alphabetic tail is
    // trailing garbage
    assert!(parse_item(b"7token").is_err());
}

#[test]
fn byte_sequence_with_invalid_character_rejected() {
    assert!(parse_item(b":aG%8=:").is_err());
    assert!(parse_item(b":aGVsbG8=").is_err()); // unterminated
    assert!(parse_item(b":aGVs bG8=:").is_err());
}

#[test]
fn byte_sequence_round_trip() {
    let item = Item::new(BareItem::ByteSeq(b"hello".to_vec()));
    let s = item.serialize_value().unwrap();
    assert_eq!(s, ":aGVsbG8=:");
    let back = parse_item(s.as_bytes()).unwrap();
    assert_eq!(back, item);
}

#[test]
fn byte_sequence_empty_and_padding_shapes() {
    assert_eq!(
        Item::new(BareItem::ByteSeq(Vec::new())).serialize_value().unwrap(),
        "::"
    );
    let one = Item::new(BareItem::ByteSeq(vec![1]));
    assert_eq!(one.serialize_value().unwrap(), ":AQ==:");
    let two = Item::new(BareItem::ByteSeq(vec![1, 2]));
    assert_eq!(two.serialize_value().unwrap(), ":AQI=:");
    assert_eq!(parse_item(b"::").unwrap(), Item::new(BareItem::ByteSeq(Vec::new())));
    assert_eq!(parse_item(b":AQ==:").unwrap(), one);
}

#[test]
fn base64_bad_length_and_padding_rejected() {
    assert!(parse_item(b":AQ=:").is_err());
    assert!(parse_item(b":A:").is_err());
    assert!(parse_item(b":=AQw:").is_err());
    assert!(parse_item(b":AQ==AQ==:").is_err()); // padding not in final group
}

#[test]
fn item_with_parameters_parses() {
    let item = parse_item(b"12.445;foo=bar").unwrap();
    assert_eq!(item.serialize_value().unwrap(), "12.445;foo=bar");
    assert_eq!(item.params.len(), 1);
    assert_eq!(
        *item.params.get(&String::from("foo")).unwrap(),
        BareItem::Token("bar".into())
    );
}

#[test]
fn parameter_without_value_is_boolean_true() {
    let item = parse_item(b"tok;a;b=?0").unwrap();
    assert_eq!(*item.params.get(&String::from("a")).unwrap(), BareItem::Boolean(true));
    // boolean true parameters serialize as the bare key
    assert_eq!(item.serialize_value().unwrap(), "tok;a;b=?0");
}

#[test]
fn repeated_parameter_key_updates_in_place() {
    let item = parse_item(b"tok;a=1;b=2;a=3").unwrap();
    assert_eq!(item.params.len(), 2);
    assert_eq!(item.serialize_value().unwrap(), "tok;a=3;b=2");
}

#[test]
fn list_parses_with_whitespace_and_inner_lists() {
    let list = parse_list(b"1;a=tok, (\"foo\" \"bar\");baz, ()").unwrap();
    assert_eq!(list.len(), 3);
    assert_eq!(
        serialize_list(&list).unwrap(),
        "1;a=tok, (\"foo\" \"bar\");baz, ()"
    );
}

#[test]
fn dictionary_parses_mixed_members() {
    let dict = parse_dictionary(b"a=?0, b, c; foo=bar, rating=1.5, fruits=(apple pear)").unwrap();
    assert_eq!(dict.len(), 5);
    assert_eq!(
        dict.serialize_value().unwrap(),
        "a=?0, b, c;foo=bar, rating=1.5, fruits=(apple pear)"
    );
}

#[test]
fn string_escapes_round_trip() {
    let item = Item::new(BareItem::String(String::from("a\"b\\c")));
    let s = item.serialize_value().unwrap();
    assert_eq!(s, "\"a\\\"b\\\\c\"");
    let back = parse_item(s.as_bytes()).unwrap();
    assert_eq!(back, item);
}

#[test]
fn simple_string_item_serializes() {
    let str_item = Item::new(BareItem::String(String::from("foo")));
    assert_eq!(str_item.serialize_value().unwrap(), "\"foo\"");
}

#[test]
fn serializer_rejects_invalid_token() {
    let item = Item::new(BareItem::Token("7up".into()));
    assert!(item.serialize_value().is_err());
    let item2 = Item::new(BareItem::Token("has space".into()));
    assert!(item2.serialize_value().is_err());
    let item3 = Item::new(BareItem::Token(String::new()));
    assert!(item3.serialize_value().is_err());
}

#[test]
fn serializer_rejects_invalid_key() {
    let mut params = Parameters::new();
    params.insert("UPPER".into(), BareItem::Boolean(true));
    let item = Item::with_params(1.into(), params);
    assert!(item.serialize_value().is_err());
}

#[test]
fn serializer_rejects_out_of_range_numbers() {
    let item = Item::new(BareItem::from(1000000000000000i64));
    assert!(item.serialize_value().is_err());
    // 13 integer digits after rounding
    let dec = Item::new(BareItem::from(Decimal::new(false, 1000000000000000, 2)));
    assert!(dec.serialize_value().is_err());
}

#[test]
fn serializer_rejects_unprintable_string() {
    let item = Item::new(BareItem::String(String::from("a\u{7}b")));
    assert!(item.serialize_value().is_err());
    let item2 = Item::new(BareItem::String(String::from("caf\u{e9}")));
    assert!(item2.serialize_value().is_err());
}

#[test]
fn inner_list_serializes_alone() {
    let inner = InnerList::new(vec![Item::new(BareItem::Boolean(true))]);
    assert_eq!(inner.serialize_value().unwrap(), "(?1)");
}

#[test]
fn inner_list_missing_separator_rejected() {
    assert!(parse_list(b"(1\"foo\")").is_err());
    assert!(parse_list(b"(1 2").is_err());
}

#[test]
fn parse_more_list_appends() {
    let mut list = parse_list(b"tok1, tok2").unwrap();
    parse_more_list(&mut list, b"tok3").unwrap();
    assert_eq!(serialize_list(&list).unwrap(), "tok1, tok2, tok3");
    // an all-whitespace chunk appends nothing
    parse_more_list(&mut list, b"   ").unwrap();
    assert_eq!(list.len(), 3);
    // a malformed chunk leaves the list unchanged
    assert!(parse_more_list(&mut list, b"tok4,").is_err());
    assert_eq!(list.len(), 3);
}

#[test]
fn parse_more_dictionary_merges_in_place() {
    let mut dict = parse_dictionary(b"a=1, b=2").unwrap();
    parse_more_dictionary(&mut dict, b"b=3, c=4").unwrap();
    assert_eq!(dict.serialize_value().unwrap(), "a=1, b=3, c=4");
    assert!(parse_more_dictionary(&mut dict, b"x=").is_err());
    assert_eq!(dict.serialize_value().unwrap(), "a=1, b=3, c=4");
}

#[test]
fn round_trip_canonical_forms() {
    let cases: Vec<&str> = vec![
        "tok",
        "\"a string\"",
        "?0",
        "?1",
        "42;q=0.5",
        "-3.14",
        ":aGVsbG8=:",
        "a, (b c);x, \"d\"",
    ];
    for case in cases {
        let list = parse_list(case.as_bytes()).unwrap();
        let out = serialize_list(&list).unwrap();
        assert_eq!(out, case);
        let list2 = parse_list(out.as_bytes()).unwrap();
        assert_eq!(list2, list);
    }
}

#[test]
fn whitespace_normalized_on_round_trip() {
    let list = parse_list(b"  tok1\t,\ttok2  ").unwrap();
    assert_eq!(serialize_list(&list).unwrap(), "tok1, tok2");
}

#[test]
fn newline_is_not_whitespace() {
    assert!(parse_list(b"tok1,\ntok2").is_err());
    assert!(parse_item(b"\ntok").is_err());
}

#[test]
fn trailing_garbage_rejected() {
    assert!(parse_item(b"1.2.3").is_err());
    assert!(parse_item(b"tok tok").is_err());
    assert!(parse_dictionary(b"a=1 b=2").is_err());
}

#[test]
fn number_grammar_edges() {
    assert!(parse_item(b"1.").is_err());
    assert!(parse_item(b"1.2345").is_err());
    assert!(parse_item(b"-").is_err());
    assert!(parse_item(b"-a").is_err());
    assert_eq!(
        parse_item(b"0").unwrap().bare_item,
        BareItem::Number(Num::Integer(0))
    );
    assert_eq!(parse_item(b"1.500").unwrap().serialize_value().unwrap(), "1.5");
}

#[test]
fn key_grammar_edges() {
    let d = parse_dictionary(b"*a_b-c.d*=1").unwrap();
    assert_eq!(d.serialize_value().unwrap(), "*a_b-c.d*=1");
    assert!(parse_dictionary(b"Abc=1").is_err());
    assert!(parse_dictionary(b"1ab=1").is_err());
}

#[test]
fn non_utf8_bytes_are_handled() {
    assert!(parse_dictionary(b"\xff\xfe").is_err());
    assert!(parse_item(b"tok\x80").is_err());
    assert!(parse_dictionary(b"a=\"\xc3\xa9\"").is_err());
}
