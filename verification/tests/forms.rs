use bencoding::bencoding_parser::{Bencoding, BencodingDict, BencodingError, BencodingValue};

fn integer(data: &[u8]) -> Result<(i64, &[u8]), BencodingError> {
    Bencoding::decode_integer(data)
}

fn bytes_of(value: &BencodingValue) -> &[u8] {
    match value {
        BencodingValue::String(bytes) => bytes,
        other => panic!("not a byte string: {:?}", other),
    }
}

fn number_of(value: &BencodingValue) -> i64 {
    match value {
        BencodingValue::Integer(n) => *n,
        other => panic!("not an integer: {:?}", other),
    }
}

#[test]
fn integer_forms_give_their_values() {
    assert_eq!(integer(b"i5e").unwrap(), (5, &b""[..]));
    assert_eq!(integer(b"i-18e").unwrap(), (-18, &b""[..]));
    assert_eq!(integer(b"i42e").unwrap(), (42, &b""[..]));
    assert_eq!(integer(b"i0e").unwrap(), (0, &b""[..]));
    assert_eq!(integer(b"i1234567890e").unwrap().0, 1_234_567_890);
}

#[test]
fn integer_leaves_the_rest_behind_the_first_e() {
    let (value, rest) = integer(b"i7e5:hello").unwrap();
    assert_eq!(value, 7);
    assert_eq!(rest, b"5:hello");
    let (value, rest) = integer(b"i-3eee").unwrap();
    assert_eq!(value, -3);
    assert_eq!(rest, b"ee");
}

#[test]
fn integer_with_leading_zero_is_invalid() {
    assert_eq!(integer(b"i03e").unwrap_err(), BencodingError::InvalidInteger);
    assert_eq!(integer(b"i00e").unwrap_err(), BencodingError::InvalidInteger);
    assert_eq!(integer(b"i-03e").unwrap_err(), BencodingError::InvalidInteger);
}

#[test]
fn integer_minus_zero_is_invalid() {
    assert_eq!(integer(b"i-0e").unwrap_err(), BencodingError::InvalidInteger);
}

#[test]
fn integer_without_digits_is_invalid() {
    assert_eq!(integer(b"ie").unwrap_err(), BencodingError::InvalidInteger);
    assert_eq!(integer(b"i-e").unwrap_err(), BencodingError::InvalidInteger);
}

#[test]
fn integer_with_other_bytes_is_invalid() {
    assert_eq!(integer(b"i+5e").unwrap_err(), BencodingError::InvalidInteger);
    assert_eq!(integer(b"i1x2e").unwrap_err(), BencodingError::InvalidInteger);
    assert_eq!(integer(b"i 1e").unwrap_err(), BencodingError::InvalidInteger);
    assert_eq!(integer(b"i1-e").unwrap_err(), BencodingError::InvalidInteger);
    assert_eq!(integer(b"i--1e").unwrap_err(), BencodingError::InvalidInteger);
}

#[test]
fn integer_bounds_of_i64() {
    assert_eq!(integer(b"i9223372036854775807e").unwrap().0, i64::MAX);
    assert_eq!(integer(b"i-9223372036854775808e").unwrap().0, i64::MIN);
    assert_eq!(integer(b"i-9223372036854775807e").unwrap().0, i64::MIN + 1);
    assert_eq!(
        integer(b"i9223372036854775808e").unwrap_err(),
        BencodingError::InvalidInteger
    );
    assert_eq!(
        integer(b"i-9223372036854775809e").unwrap_err(),
        BencodingError::InvalidInteger
    );
    assert_eq!(
        integer(b"i340282366920938463463374607431768211456e").unwrap_err(),
        BencodingError::InvalidInteger
    );
    assert_eq!(
        integer(b"i99999999999999999999999999999999999999999999999999e").unwrap_err(),
        BencodingError::InvalidInteger
    );
}

#[test]
fn integer_without_end_is_truncated() {
    assert_eq!(integer(b"").unwrap_err(), BencodingError::TruncatedInput);
    assert_eq!(integer(b"i").unwrap_err(), BencodingError::TruncatedInput);
    assert_eq!(integer(b"i42").unwrap_err(), BencodingError::TruncatedInput);
    assert_eq!(integer(b"i03").unwrap_err(), BencodingError::TruncatedInput);
}

#[test]
fn integer_needs_its_tag() {
    assert_eq!(integer(b"42e").unwrap_err(), BencodingError::UnexpectedTag);
    assert_eq!(integer(b"l42e").unwrap_err(), BencodingError::UnexpectedTag);
}

#[test]
fn string_gives_payload_and_rest() {
    let (value, rest) = Bencoding::decode_string(b"5:helloi1e").unwrap();
    assert_eq!(value, b"hello");
    assert_eq!(rest, b"i1e");
    let (value, rest) = Bencoding::decode_string(b"0:").unwrap();
    assert_eq!(value, b"");
    assert_eq!(rest, b"");
    let (value, rest) = Bencoding::decode_string(b"12:abcdefghijklm").unwrap();
    assert_eq!(value, b"abcdefghijkl");
    assert_eq!(rest, b"m");
}

#[test]
fn string_payload_may_hold_any_byte() {
    let (value, rest) = Bencoding::decode_string(b"5:\xAB\xA3\xDA\x89\xFCe").unwrap();
    assert_eq!(value, b"\xAB\xA3\xDA\x89\xFC");
    assert_eq!(rest, b"e");
    let (value, rest) = Bencoding::decode_string(b"4:1:e:rest").unwrap();
    assert_eq!(value, b"1:e:");
    assert_eq!(rest, b"rest");
    let mut data = b"256:".to_vec();
    let payload: Vec<u8> = (0..=255u8).collect();
    data.extend_from_slice(&payload);
    let (value, rest) = Bencoding::decode_string(&data).unwrap();
    assert_eq!(value, payload);
    assert!(rest.is_empty());
}

#[test]
fn string_length_may_have_leading_zeros() {
    let (value, rest) = Bencoding::decode_string(b"005:hello!").unwrap();
    assert_eq!(value, b"hello");
    assert_eq!(rest, b"!");
    let (value, rest) = Bencoding::decode_string(b"00:x").unwrap();
    assert_eq!(value, b"");
    assert_eq!(rest, b"x");
}

#[test]
fn string_without_separator_is_truncated() {
    assert_eq!(
        Bencoding::decode_string(b"").unwrap_err(),
        BencodingError::TruncatedInput
    );
    assert_eq!(
        Bencoding::decode_string(b"5").unwrap_err(),
        BencodingError::TruncatedInput
    );
    assert_eq!(
        Bencoding::decode_string(b"5hello").unwrap_err(),
        BencodingError::TruncatedInput
    );
}

#[test]
fn string_with_bad_length_field() {
    assert_eq!(
        Bencoding::decode_string(b":abc").unwrap_err(),
        BencodingError::InvalidLengthPrefix
    );
    assert_eq!(
        Bencoding::decode_string(b"-1:a").unwrap_err(),
        BencodingError::InvalidLengthPrefix
    );
    assert_eq!(
        Bencoding::decode_string(b"+1:a").unwrap_err(),
        BencodingError::InvalidLengthPrefix
    );
    assert_eq!(
        Bencoding::decode_string(b"1a:a").unwrap_err(),
        BencodingError::InvalidLengthPrefix
    );
    assert_eq!(
        Bencoding::decode_string(b"99999999999999999999999999x:a").unwrap_err(),
        BencodingError::InvalidLengthPrefix
    );
}

#[test]
fn string_longer_than_the_buffer() {
    assert_eq!(
        Bencoding::decode_string(b"5:hell").unwrap_err(),
        BencodingError::LengthOutOfBounds
    );
    assert_eq!(
        Bencoding::decode_string(b"1:").unwrap_err(),
        BencodingError::LengthOutOfBounds
    );
    assert_eq!(
        Bencoding::decode_string(b"18446744073709551616:abc").unwrap_err(),
        BencodingError::LengthOutOfBounds
    );
    assert_eq!(
        Bencoding::decode_string(b"99999999999999999999999999999999999999999:abc").unwrap_err(),
        BencodingError::LengthOutOfBounds
    );
}

#[test]
fn list_with_a_string_and_an_integer() {
    let (items, rest) = Bencoding::decode_list(b"l5:elem1i42ee").unwrap();
    assert_eq!(items.len(), 2);
    assert_eq!(bytes_of(&items[0]), b"elem1");
    assert_eq!(number_of(&items[1]), 42);
    assert!(rest.is_empty());
}

#[test]
fn empty_list() {
    let (items, rest) = Bencoding::decode_list(b"le").unwrap();
    assert!(items.is_empty());
    assert!(rest.is_empty());
    let (items, rest) = Bencoding::decode_list(b"lei1e").unwrap();
    assert!(items.is_empty());
    assert_eq!(rest, b"i1e");
}

#[test]
fn empty_dict() {
    let (dict, rest) = Bencoding::decode_dict(b"de").unwrap();
    assert_eq!(dict.len(), 0);
    assert!(dict.get(b"").is_none());
    assert!(rest.is_empty());
}

#[test]
fn list_keeps_the_order_of_its_items() {
    let (items, _) = Bencoding::decode_list(b"li3ei1ei2e1:ai1ee").unwrap();
    let numbers: Vec<i64> = items
        .iter()
        .filter_map(|item| match item {
            BencodingValue::Integer(n) => Some(*n),
            _ => None,
        })
        .collect();
    assert_eq!(numbers, vec![3, 1, 2, 1]);
    assert_eq!(bytes_of(&items[3]), b"a");
    assert_eq!(items.len(), 5);
}

#[test]
fn nested_lists() {
    let (items, rest) = Bencoding::decode_list(b"llleeli1eee!").unwrap();
    assert_eq!(rest, b"!");
    assert_eq!(items.len(), 2);
    match &items[0] {
        BencodingValue::List(inner) => {
            assert_eq!(inner.len(), 1);
            assert!(matches!(&inner[0], BencodingValue::List(l) if l.is_empty()));
        }
        other => panic!("not a list: {:?}", other),
    }
    match &items[1] {
        BencodingValue::List(inner) => {
            assert_eq!(inner.len(), 1);
            assert_eq!(number_of(&inner[0]), 1);
        }
        other => panic!("not a list: {:?}", other),
    }
}

#[test]
fn list_errors() {
    assert_eq!(
        Bencoding::decode_list(b"").unwrap_err(),
        BencodingError::TruncatedInput
    );
    assert_eq!(
        Bencoding::decode_list(b"l").unwrap_err(),
        BencodingError::TruncatedInput
    );
    assert_eq!(
        Bencoding::decode_list(b"li1e").unwrap_err(),
        BencodingError::TruncatedInput
    );
    assert_eq!(
        Bencoding::decode_list(b"i1e").unwrap_err(),
        BencodingError::UnexpectedTag
    );
    assert_eq!(
        Bencoding::decode_list(b"li1exe").unwrap_err(),
        BencodingError::UnexpectedTag
    );
    assert_eq!(
        Bencoding::decode_list(b"li01ee").unwrap_err(),
        BencodingError::InvalidInteger
    );
    assert_eq!(
        Bencoding::decode_list(b"l3:ab").unwrap_err(),
        BencodingError::LengthOutOfBounds
    );
    assert_eq!(
        Bencoding::decode_list(b"l1x:ae").unwrap_err(),
        BencodingError::InvalidLengthPrefix
    );
}

#[test]
fn dict_errors() {
    assert_eq!(
        Bencoding::decode_dict(b"").unwrap_err(),
        BencodingError::TruncatedInput
    );
    assert_eq!(
        Bencoding::decode_dict(b"d").unwrap_err(),
        BencodingError::TruncatedInput
    );
    assert_eq!(
        Bencoding::decode_dict(b"d1:a").unwrap_err(),
        BencodingError::TruncatedInput
    );
    assert_eq!(
        Bencoding::decode_dict(b"d1:ai1e").unwrap_err(),
        BencodingError::TruncatedInput
    );
    assert_eq!(
        Bencoding::decode_dict(b"le").unwrap_err(),
        BencodingError::UnexpectedTag
    );
    assert_eq!(
        Bencoding::decode_dict(b"d1:a?e").unwrap_err(),
        BencodingError::UnexpectedTag
    );
    assert_eq!(
        Bencoding::decode_dict(b"d1:ai-0ee").unwrap_err(),
        BencodingError::InvalidInteger
    );
    assert_eq!(
        Bencoding::decode_dict(b"d9:ai1ee").unwrap_err(),
        BencodingError::LengthOutOfBounds
    );
    assert_eq!(
        Bencoding::decode_dict(b"di1e1:ae").unwrap_err(),
        BencodingError::InvalidLengthPrefix
    );
    assert_eq!(
        Bencoding::decode_dict(b"di1ei2ee").unwrap_err(),
        BencodingError::TruncatedInput
    );
}

#[test]
fn next_dispatches_on_the_first_byte() {
    let (value, rest) = Bencoding::decode_next(b"i-7e.").unwrap();
    assert_eq!(number_of(&value), -7);
    assert_eq!(rest, b".");
    let (value, rest) = Bencoding::decode_next(b"3:abc.").unwrap();
    assert_eq!(bytes_of(&value), b"abc");
    assert_eq!(rest, b".");
    let (value, rest) = Bencoding::decode_next(b"le.").unwrap();
    assert!(matches!(value, BencodingValue::List(ref l) if l.is_empty()));
    assert_eq!(rest, b".");
    let (value, rest) = Bencoding::decode_next(b"de.").unwrap();
    assert!(matches!(value, BencodingValue::Dict(ref d) if d.len() == 0));
    assert_eq!(rest, b".");
}

#[test]
fn next_errors() {
    assert_eq!(
        Bencoding::decode_next(b"").unwrap_err(),
        BencodingError::TruncatedInput
    );
    assert_eq!(
        Bencoding::decode_next(b"x").unwrap_err(),
        BencodingError::UnexpectedTag
    );
    assert_eq!(
        Bencoding::decode_next(b"e").unwrap_err(),
        BencodingError::UnexpectedTag
    );
    assert_eq!(
        Bencoding::decode_next(b":").unwrap_err(),
        BencodingError::UnexpectedTag
    );
    assert_eq!(
        Bencoding::decode_next(b"-1:a").unwrap_err(),
        BencodingError::UnexpectedTag
    );
    assert_eq!(
        Bencoding::decode_next(b"\xff").unwrap_err(),
        BencodingError::UnexpectedTag
    );
}

#[test]
fn duplicate_key_keeps_the_last_value_and_the_first_place() {
    let document = Bencoding::decode(b"d1:ai1e1:bi2e1:ai3ee").unwrap();
    assert_eq!(number_of(&document.get(b"a").unwrap()), 3);
    assert_eq!(number_of(&document.get(b"b").unwrap()), 2);
    let (dict, _) = Bencoding::decode_dict(b"d1:ai1e1:bi2e1:ai3ee").unwrap();
    assert_eq!(dict.len(), 2);
}

#[test]
fn keys_need_not_be_sorted() {
    let document = Bencoding::decode(b"d1:zi1e1:ai2ee").unwrap();
    assert_eq!(number_of(&document.get(b"z").unwrap()), 1);
    assert_eq!(number_of(&document.get(b"a").unwrap()), 2);
}

#[test]
fn keys_are_compared_byte_for_byte() {
    let document = Bencoding::decode(b"d2:\xff\x00i1e2:\xff\x01i2e0:i3ee").unwrap();
    assert_eq!(number_of(&document.get(b"\xff\x00").unwrap()), 1);
    assert_eq!(number_of(&document.get(b"\xff\x01").unwrap()), 2);
    assert_eq!(number_of(&document.get(b"").unwrap()), 3);
    assert!(document.get(b"\xff").is_none());
    assert!(document.get(b"\xff\x00\x00").is_none());
}

#[test]
fn trailing_bytes_are_ignored() {
    let document = Bencoding::decode(b"d1:ai1eetrailing garbage").unwrap();
    assert_eq!(number_of(&document.get(b"a").unwrap()), 1);
    let (_, rest) = Bencoding::decode_dict(b"d1:ai1eetrailing garbage").unwrap();
    assert_eq!(rest, b"trailing garbage");
}

#[test]
fn get_does_not_search_nested_dictionaries() {
    let document = Bencoding::decode(b"d5:outerd5:inneri1eee").unwrap();
    assert!(document.get(b"inner").is_none());
    match document.get(b"outer").unwrap() {
        BencodingValue::Dict(outer) => {
            assert_eq!(number_of(outer.get(b"inner").unwrap()), 1);
            assert!(outer.get(b"outer").is_none());
        }
        other => panic!("not a dictionary: {:?}", other),
    }
}

#[test]
fn decode_wants_a_dictionary() {
    assert_eq!(
        Bencoding::decode(b"").err(),
        Some(BencodingError::TruncatedInput)
    );
    assert_eq!(
        Bencoding::decode(b"le").err(),
        Some(BencodingError::UnexpectedTag)
    );
    assert_eq!(
        Bencoding::decode(b"i1e").err(),
        Some(BencodingError::UnexpectedTag)
    );
    assert_eq!(
        Bencoding::decode(b"5:hello").err(),
        Some(BencodingError::UnexpectedTag)
    );
}

#[test]
fn dictionary_insert_and_get() {
    let mut dict = BencodingDict::new();
    assert_eq!(dict.len(), 0);
    dict.insert(b"one".to_vec(), BencodingValue::Integer(1));
    dict.insert(b"two".to_vec(), BencodingValue::Integer(2));
    assert_eq!(dict.len(), 2);
    dict.insert(b"one".to_vec(), BencodingValue::String(b"uno".to_vec()));
    assert_eq!(dict.len(), 2);
    assert_eq!(bytes_of(dict.get(b"one").unwrap()), b"uno");
    assert_eq!(number_of(dict.get(b"two").unwrap()), 2);
    assert!(dict.get(b"three").is_none());
}

#[test]
fn clone_is_deep() {
    let (value, _) =
        Bencoding::decode_next(b"d1:ali1e2:xyd1:k1:vee1:bi-5ee").unwrap();
    let copy = value.clone();
    drop(value);
    let dict = match copy {
        BencodingValue::Dict(dict) => dict,
        other => panic!("not a dictionary: {:?}", other),
    };
    assert_eq!(dict.len(), 2);
    assert_eq!(number_of(dict.get(b"b").unwrap()), -5);
    match dict.get(b"a").unwrap() {
        BencodingValue::List(items) => {
            assert_eq!(items.len(), 3);
            assert_eq!(number_of(&items[0]), 1);
            assert_eq!(bytes_of(&items[1]), b"xy");
            match &items[2] {
                BencodingValue::Dict(inner) => {
                    assert_eq!(bytes_of(inner.get(b"k").unwrap()), b"v");
                }
                other => panic!("not a dictionary: {:?}", other),
            }
        }
        other => panic!("not a list: {:?}", other),
    }
}

#[test]
fn every_cut_of_a_valid_document_fails_as_truncated() {
    let whole: &[u8] = b"d4:listl5:elem1i42ee3:numi-18e4:dictd1:k0:e5:bytes3:\x00\xff:e";
    let document = Bencoding::decode(whole).unwrap();
    assert_eq!(number_of(&document.get(b"num").unwrap()), -18);
    for cut in 0..whole.len() {
        match Bencoding::decode(&whole[..cut]) {
            Err(BencodingError::TruncatedInput) | Err(BencodingError::LengthOutOfBounds) => {}
            other => panic!("cut at {}: {:?}", cut, other.map(|_| ())),
        }
    }
}

#[test]
fn cut_behind_a_complete_value_reads_the_same_value() {
    let whole: &[u8] = b"li1e3:abce5:extra";
    let (items, rest) = Bencoding::decode_list(whole).unwrap();
    assert_eq!(rest, b"5:extra");
    let consumed = whole.len() - rest.len();
    for cut in consumed..=whole.len() {
        let (again, left) = Bencoding::decode_list(&whole[..cut]).unwrap();
        assert_eq!(again.len(), items.len());
        assert_eq!(number_of(&again[0]), 1);
        assert_eq!(bytes_of(&again[1]), b"abc");
        assert_eq!(left, &whole[consumed..cut]);
    }
}
