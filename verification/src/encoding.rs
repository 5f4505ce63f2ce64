//! The standard way of writing a value down, and the proof that the
//! grammar reads it back.
//!
//! Nothing here is executable: the encoding serves to say which buffers
//! the decoder must accept, and what it must make of them.

use crate::bencoding_parser::BencodingError;
use crate::grammar::{
    all_digits, decimal_value, dict_of, is_digit, is_integer_literal, literal_value,
    parse_dict_pairs, parse_document, parse_integer, parse_list_items, parse_string, parse_value,
    DICT_TAG, END, INTEGER_TAG, LIST_TAG, MINUS, SEPARATOR, ZERO,
};
use crate::guarantees::lemma_string_payload_preserved;
use crate::occurrence::{lemma_first_occurrence, lemma_index_of_first};
use crate::value::{
    all_well_formed, dict_keys, keys_unique, lemma_well_formed_dict, lemma_well_formed_list,
    values_well_formed, well_formed, Value,
};
use vstd::prelude::*;

verus! {

/// The decimal digits of `n`, without leading zeros.
pub open spec fn decimal_digits(n: nat) -> Seq<u8>
    decreases n,
{
    if n < 10 {
        seq![(ZERO + n) as u8]
    } else {
        decimal_digits(n / 10).push((ZERO + n % 10) as u8)
    }
}

/// The literal of an integer: a minus sign where it is negative, and the
/// digits of its magnitude.
pub open spec fn integer_literal(n: int) -> Seq<u8> {
    if n < 0 {
        seq![MINUS] + decimal_digits((-n) as nat)
    } else {
        decimal_digits(n as nat)
    }
}

/// A byte string written down: its length, `:`, and its bytes.
pub open spec fn string_encoding(bytes: Seq<u8>) -> Seq<u8> {
    decimal_digits(bytes.len()) + seq![SEPARATOR] + bytes
}

/// An integer written down: `i`, its literal, `e`.
pub open spec fn integer_encoding(n: int) -> Seq<u8> {
    seq![INTEGER_TAG] + integer_literal(n) + seq![END]
}

/// A value written down.
pub open spec fn encoding(value: Value) -> Seq<u8>
    decreases value,
{
    match value {
        Value::ByteString(bytes) => string_encoding(bytes),
        Value::Integer(n) => integer_encoding(n),
        Value::List(items) => seq![LIST_TAG] + items_encoding(items) + seq![END],
        Value::Dict(entries) => seq![DICT_TAG] + entries_encoding(entries) + seq![END],
    }
}

/// The items of a list written down one after the other.
pub open spec fn items_encoding(items: Seq<Value>) -> Seq<u8>
    decreases items,
{
    if items.len() == 0 {
        Seq::empty()
    } else {
        encoding(items[0]) + items_encoding(items.skip(1))
    }
}

/// The entries of a dictionary written down one after the other, each as
/// its key and its value.
pub open spec fn entries_encoding(entries: Seq<(Seq<u8>, Value)>) -> Seq<u8>
    decreases entries,
{
    if entries.len() == 0 {
        Seq::empty()
    } else {
        string_encoding(entries[0].0) + encoding(entries[0].1) + entries_encoding(
            entries.skip(1),
        )
    }
}

/// The digits of a number are digits, at least one, they write that number,
/// and they begin with `0` only for zero itself.
pub proof fn lemma_decimal_digits(n: nat)
    ensures
        decimal_digits(n).len() > 0,
        all_digits(decimal_digits(n)),
        decimal_value(decimal_digits(n)) == n,
        decimal_digits(n)[0] == ZERO <==> n == 0,
        n == 0 ==> decimal_digits(n).len() == 1,
    decreases n,
{
    let digits = decimal_digits(n);
    if n < 10 {
        assert(digits.drop_last() =~= Seq::<u8>::empty());
        assert(decimal_value(digits.drop_last()) == 0);
    } else {
        lemma_decimal_digits(n / 10);
        assert(digits.drop_last() =~= decimal_digits(n / 10));
        assert(digits[0] == decimal_digits(n / 10)[0]);
        assert forall|i: int| 0 <= i < digits.len() implies is_digit(#[trigger] digits[i]) by {
            if i < digits.len() - 1 {
                assert(digits[i] == decimal_digits(n / 10)[i]);
            }
        }
    }
}

/// A byte string is read back from its encoding, whatever follows it.
pub proof fn lemma_string_read_back(bytes: Seq<u8>, tail: Seq<u8>)
    ensures
        parse_string(string_encoding(bytes) + tail) == Ok::<_, BencodingError>((bytes, tail)),
        string_encoding(bytes).len() > 0,
        is_digit(string_encoding(bytes)[0]),
{
    lemma_decimal_digits(bytes.len());
    lemma_string_payload_preserved(decimal_digits(bytes.len()), bytes, tail);
    assert(string_encoding(bytes)[0] == decimal_digits(bytes.len())[0]);
}

/// The literal of an integer is well formed and writes that integer.
pub proof fn lemma_integer_literal(n: int)
    ensures
        is_integer_literal(integer_literal(n)),
        literal_value(integer_literal(n)) == n,
        forall|i: int|
            0 <= i < integer_literal(n).len() ==> #[trigger] integer_literal(n)[i] != END,
{
    let text = integer_literal(n);
    if n < 0 {
        let digits = decimal_digits((-n) as nat);
        lemma_decimal_digits((-n) as nat);
        assert(text[0] == MINUS);
        assert(text.skip(1) =~= digits);
        assert forall|i: int| 0 <= i < text.len() implies #[trigger] text[i] != END by {
            if i > 0 {
                assert(text[i] == digits[i - 1]);
                assert(is_digit(digits[i - 1]));
            }
        }
    } else {
        lemma_decimal_digits(n as nat);
        assert(is_digit(text[0]));
        assert forall|i: int| 0 <= i < text.len() implies #[trigger] text[i] != END by {
            assert(is_digit(text[i]));
        }
    }
}

/// An integer that fits an `i64` is read back from its encoding, whatever
/// follows it.
pub proof fn lemma_integer_read_back(n: int, tail: Seq<u8>)
    requires
        i64::MIN <= n <= i64::MAX,
    ensures
        parse_integer(integer_encoding(n) + tail) == Ok::<_, BencodingError>((n, tail)),
{
    let text = integer_literal(n);
    let s = integer_encoding(n) + tail;
    let end = text.len() as int;
    lemma_integer_literal(n);
    assert(s[0] == INTEGER_TAG);
    let body = s.skip(1);
    assert(body =~= text + seq![END] + tail);
    assert(body[end] == END);
    assert forall|j: int| 0 <= j < end implies body[j] != END by {
        assert(body[j] == text[j]);
    }
    lemma_first_occurrence(body, END, end);
    assert(body.take(end) =~= text);
    assert(s.skip(end + 2) =~= tail);
}

/// The encoding of a value is not empty, and its first byte says which
/// form it is: never the closing `e`.
pub proof fn lemma_encoding_tag(value: Value)
    ensures
        encoding(value).len() > 0,
        match value {
            Value::ByteString(_) => is_digit(encoding(value)[0]),
            Value::Integer(_) => encoding(value)[0] == INTEGER_TAG,
            Value::List(_) => encoding(value)[0] == LIST_TAG,
            Value::Dict(_) => encoding(value)[0] == DICT_TAG,
        },
{
    if let Value::ByteString(bytes) = value {
        lemma_string_read_back(bytes, Seq::empty());
    }
}

/// A dictionary with unique keys is the dictionary that its own entries
/// build.
pub proof fn lemma_dict_of_entries(entries: Seq<(Seq<u8>, Value)>)
    requires
        keys_unique(entries),
    ensures
        dict_of(entries) == entries,
    decreases entries.len(),
{
    if entries.len() > 0 {
        let front = entries.drop_last();
        let last = entries.len() - 1;
        assert(dict_keys(front) =~= dict_keys(entries).drop_last());
        lemma_dict_of_entries(front);
        lemma_index_of_first(dict_keys(front), entries[last].0);
        if let Some(i) = dict_keys(front).index_of_first(entries[last].0) {
            assert(dict_keys(entries)[i] == dict_keys(entries)[last]);
        }
        assert(front.push(entries[last]) =~= entries);
    } else {
        assert(dict_of(entries) =~= entries);
    }
}

/// Round trip: every well-formed value is read back from its encoding,
/// whatever follows it, and what follows is left over.
pub proof fn lemma_value_read_back(value: Value, tail: Seq<u8>)
    requires
        well_formed(value),
    ensures
        parse_value(encoding(value) + tail) == Ok::<_, BencodingError>((value, tail)),
    decreases value,
{
    let s = encoding(value) + tail;
    lemma_encoding_tag(value);
    assert(s[0] == encoding(value)[0]);
    match value {
        Value::ByteString(bytes) => {
            lemma_string_read_back(bytes, tail);
        },
        Value::Integer(n) => {
            lemma_integer_read_back(n, tail);
        },
        Value::List(items) => {
            lemma_well_formed_list(items);
            lemma_items_read_back(items, tail);
            assert(s.skip(1) =~= items_encoding(items) + seq![END] + tail);
        },
        Value::Dict(entries) => {
            lemma_well_formed_dict(entries);
            lemma_entries_read_back(entries, tail);
            lemma_dict_of_entries(entries);
            assert(s.skip(1) =~= entries_encoding(entries) + seq![END] + tail);
        },
    }
}

/// The items of a list are read back from their encodings and the closing
/// `e`.
pub proof fn lemma_items_read_back(items: Seq<Value>, tail: Seq<u8>)
    requires
        all_well_formed(items),
    ensures
        parse_list_items(items_encoding(items) + seq![END] + tail) == Ok::<_, BencodingError>(
            (items, tail),
        ),
    decreases items,
{
    let s = items_encoding(items) + seq![END] + tail;
    if items.len() == 0 {
        assert(s[0] == END);
        assert(s.skip(1) =~= tail);
        assert(items =~= Seq::<Value>::empty());
    } else {
        let first = items[0];
        let others = items.skip(1);
        let after = items_encoding(others) + seq![END] + tail;
        assert(s =~= encoding(first) + after);
        lemma_encoding_tag(first);
        assert(s[0] == encoding(first)[0]);
        assert(well_formed(first));
        lemma_value_read_back(first, after);
        assert forall|i: int| 0 <= i < others.len() implies well_formed(#[trigger] others[i]) by {
            assert(others[i] == items[i + 1]);
        }
        lemma_items_read_back(others, tail);
        assert(seq![first] + others =~= items);
    }
}

/// The entries of a dictionary are read back, as pairs, from their
/// encodings and the closing `e`.
pub proof fn lemma_entries_read_back(entries: Seq<(Seq<u8>, Value)>, tail: Seq<u8>)
    requires
        values_well_formed(entries),
    ensures
        parse_dict_pairs(entries_encoding(entries) + seq![END] + tail) == Ok::<
            _,
            BencodingError,
        >((entries, tail)),
    decreases entries,
{
    let s = entries_encoding(entries) + seq![END] + tail;
    if entries.len() == 0 {
        assert(s[0] == END);
        assert(s.skip(1) =~= tail);
        assert(entries =~= Seq::<(Seq<u8>, Value)>::empty());
    } else {
        let (key, value) = entries[0];
        let others = entries.skip(1);
        let after = entries_encoding(others) + seq![END] + tail;
        let after_key = encoding(value) + after;
        assert(s =~= string_encoding(key) + after_key);
        lemma_string_read_back(key, after_key);
        assert(s[0] == string_encoding(key)[0]);
        assert(well_formed(entries[0].1));
        lemma_value_read_back(value, after);
        lemma_encoding_tag(value);
        assert forall|i: int| 0 <= i < others.len() implies well_formed(
            (#[trigger] others[i]).1,
        ) by {
            assert(others[i] == entries[i + 1]);
        }
        lemma_entries_read_back(others, tail);
        assert(seq![(key, value)] + others =~= entries);
    }
}

/// Round trip for documents: a well-formed dictionary is decoded from its
/// encoding, whatever follows it.
pub proof fn lemma_document_read_back(entries: Seq<(Seq<u8>, Value)>, tail: Seq<u8>)
    requires
        well_formed(Value::Dict(entries)),
    ensures
        parse_document(encoding(Value::Dict(entries)) + tail) == Ok::<_, BencodingError>(entries),
{
    lemma_value_read_back(Value::Dict(entries), tail);
    lemma_encoding_tag(Value::Dict(entries));
    assert((encoding(Value::Dict(entries)) + tail)[0] == DICT_TAG);
}

} // verus!
