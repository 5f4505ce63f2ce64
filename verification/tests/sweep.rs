use bencoding::bencoding_parser::{Bencoding, BencodingDict, BencodingError, BencodingValue};

const ALPHABET: &[u8] = b"dlie019:-x";

/// Writes a value down so that two values can be compared.
fn show(value: &BencodingValue, out: &mut Vec<u8>) {
    match value {
        BencodingValue::String(bytes) => {
            out.extend_from_slice(format!("s{}<", bytes.len()).as_bytes());
            out.extend_from_slice(bytes);
            out.push(b'>');
        }
        BencodingValue::Integer(n) => out.extend_from_slice(format!("i{};", n).as_bytes()),
        BencodingValue::List(items) => {
            out.push(b'[');
            for item in items {
                show(item, out);
            }
            out.push(b']');
        }
        BencodingValue::Dict(dict) => {
            out.push(b'{');
            for (key, value) in entries(dict) {
                out.extend_from_slice(format!("k{}<", key.len()).as_bytes());
                out.extend_from_slice(key);
                out.push(b'>');
                show(value, out);
            }
            out.push(b'}');
        }
    }
}

fn entries(dict: &BencodingDict) -> Vec<(&[u8], &BencodingValue)> {
    let mut all = Vec::new();
    while let Some(entry) = dict.entry(all.len()) {
        all.push(entry);
    }
    assert_eq!(all.len(), dict.len());
    assert!(dict.entry(dict.len() + 1).is_none());
    all
}

fn shown(value: &BencodingValue) -> Vec<u8> {
    let mut out = Vec::new();
    show(value, &mut out);
    out
}

fn is_shortage(e: BencodingError) -> bool {
    e == BencodingError::TruncatedInput || e == BencodingError::LengthOutOfBounds
}

fn inputs(max_len: usize) -> Vec<Vec<u8>> {
    let mut all: Vec<Vec<u8>> = vec![Vec::new()];
    let mut last: Vec<Vec<u8>> = vec![Vec::new()];
    for _ in 0..max_len {
        let mut next = Vec::new();
        for input in &last {
            for &byte in ALPHABET {
                let mut longer = input.clone();
                longer.push(byte);
                next.push(longer);
            }
        }
        all.extend(next.iter().cloned());
        last = next;
    }
    all
}

#[test]
fn a_value_that_is_read_takes_at_least_one_byte_from_the_front() {
    for input in inputs(5) {
        if let Ok((_, rest)) = Bencoding::decode_next(&input) {
            assert!(rest.len() < input.len(), "{:?}", input);
            assert_eq!(rest, &input[input.len() - rest.len()..], "{:?}", input);
        }
    }
}

#[test]
fn bytes_behind_a_value_do_not_change_it() {
    let tails: [&[u8]; 3] = [b"e", b":", b"0i-d"];
    for input in inputs(4) {
        let outcome = Bencoding::decode_next(&input);
        for tail in tails {
            let mut longer = input.clone();
            longer.extend_from_slice(tail);
            let again = Bencoding::decode_next(&longer);
            match (&outcome, &again) {
                (Ok((value, rest)), Ok((value_again, rest_again))) => {
                    assert_eq!(shown(value), shown(value_again), "{:?}", input);
                    let mut expected = rest.to_vec();
                    expected.extend_from_slice(tail);
                    assert_eq!(*rest_again, &expected[..], "{:?}", input);
                }
                (Ok(_), Err(e)) => panic!("{:?} + {:?}: {:?}", input, tail, e),
                (Err(e), _) if is_shortage(*e) => {}
                (Err(e), Err(e_again)) => assert_eq!(e, e_again, "{:?}", input),
                (Err(e), Ok(_)) => panic!("{:?} + {:?}: was {:?}", input, tail, e),
            }
        }
    }
}

#[test]
fn a_cut_document_is_the_same_document_or_a_shortage() {
    for input in inputs(5) {
        let whole = Bencoding::decode(&input);
        for cut in 0..=input.len() {
            match (Bencoding::decode(&input[..cut]), &whole) {
                (Ok(part), Ok(document)) => {
                    for key in [&b"0"[..], b"1", b"", b"x", b"d", b"e"] {
                        let a = part.get(key).map(|v| shown(&v));
                        let b = document.get(key).map(|v| shown(&v));
                        assert_eq!(a, b, "{:?} cut at {}", input, cut);
                    }
                }
                (Ok(_), Err(e)) => panic!("{:?} cut at {}: whole fails, {:?}", input, cut, e),
                (Err(e), _) if is_shortage(e) => {}
                (Err(e), Err(e_whole)) => assert_eq!(e, *e_whole, "{:?}", input),
                (Err(e), Ok(_)) => panic!("{:?} cut at {}: {:?}", input, cut, e),
            }
        }
    }
}

#[test]
fn no_dictionary_holds_a_key_twice() {
    for input in inputs(5) {
        if input.first() != Some(&b'd') {
            continue;
        }
        let mut longer = input.clone();
        longer.extend_from_slice(b"0:0:0:i1e1:xlee");
        for data in [&input, &longer] {
            if let Ok((dict, _)) = Bencoding::decode_dict(data) {
                let all = entries(&dict);
                for (i, (key, value)) in all.iter().enumerate() {
                    for (other, _) in &all[..i] {
                        assert_ne!(key, other, "{:?}", data);
                    }
                    assert_eq!(
                        dict.get(key).map(shown),
                        Some(shown(value)),
                        "{:?}",
                        data
                    );
                }
            }
        }
    }
}

#[test]
fn a_key_that_is_absent_is_not_found() {
    let document = Bencoding::decode(b"d1:a1:b3:keyi1e0:lee").unwrap();
    assert!(document.get(b"a").is_some());
    assert!(document.get(b"key").is_some());
    assert!(document.get(b"").is_some());
    for key in [&b"b"[..], b"A", b"a ", b"ke", b"keyi", b"\x00", b"1:a"] {
        assert!(document.get(key).is_none(), "{:?}", key);
    }
}

#[test]
fn nested_dictionary_by_key() {
    let document = Bencoding::decode(b"d16:dict_inside_dictd3:key5:valueee").unwrap();
    match document.get(b"dict_inside_dict").unwrap() {
        BencodingValue::Dict(inner) => match inner.get(b"key").unwrap() {
            BencodingValue::String(bytes) => assert_eq!(bytes, b"value"),
            other => panic!("not a byte string: {:?}", other),
        },
        other => panic!("not a dictionary: {:?}", other),
    }
    assert!(document.get(b"key").is_none());
}

#[test]
fn the_last_of_several_values_of_a_key_is_found() {
    let (dict, rest) = Bencoding::decode_dict(b"d1:k1:a1:j1:b1:k1:c1:k1:d1:j1:ee").unwrap();
    assert!(rest.is_empty());
    assert_eq!(dict.len(), 2);
    assert_eq!(shown(dict.get(b"k").unwrap()), b"s1<d>");
    assert_eq!(shown(dict.get(b"j").unwrap()), b"s1<e>");
    let all = entries(&dict);
    assert_eq!(all[0].0, b"k");
    assert_eq!(shown(all[0].1), b"s1<d>");
    assert_eq!(all[1].0, b"j");
    assert_eq!(shown(all[1].1), b"s1<e>");
}

#[test]
fn entries_come_in_the_order_of_first_insertion() {
    let mut dict = BencodingDict::new();
    assert!(dict.entry(0).is_none());
    dict.insert(b"z".to_vec(), BencodingValue::Integer(1));
    dict.insert(b"a".to_vec(), BencodingValue::Integer(2));
    dict.insert(b"m".to_vec(), BencodingValue::Integer(3));
    dict.insert(b"a".to_vec(), BencodingValue::Integer(4));
    let all = entries(&dict);
    let keys: Vec<&[u8]> = all.iter().map(|entry| entry.0).collect();
    assert_eq!(keys, vec![&b"z"[..], b"a", b"m"]);
    assert_eq!(shown(all[1].1), b"i4;");
    let copy = dict.clone();
    drop(dict);
    let copied: Vec<Vec<u8>> = entries(&copy).iter().map(|e| e.0.to_vec()).collect();
    assert_eq!(copied, vec![b"z".to_vec(), b"a".to_vec(), b"m".to_vec()]);
}
