//! The executable value tree and the recursive-descent decoder.

use crate::grammar::{
    all_digits, decimal_value, dict_of, is_digit, parse_dict, parse_dict_pairs, parse_document,
    parse_integer, parse_list, parse_list_items, parse_string, parse_value, prepend, DICT_TAG,
    END, INTEGER_TAG, LIST_TAG, MINUS, NINE, SEPARATOR, ZERO,
};
use crate::guarantees::{lemma_prepend_twice, lemma_string_consumes, lemma_value_consumes};
use crate::value::{dict_get, dict_insert, dict_keys, Value};
use vstd::prelude::*;
use vstd::slice::{slice_subrange, slice_to_vec};

verus! {

/// Why a buffer could not be decoded.
#[derive(Debug, Clone, Copy, PartialEq, Eq)]
pub enum BencodingError {
    /// The buffer ends before a required delimiter or byte.
    TruncatedInput,
    /// The length field of a byte string is not a run of decimal digits.
    InvalidLengthPrefix,
    /// The payload of an integer is not a well-formed decimal number that an
    /// `i64` can hold.
    InvalidInteger,
    /// A byte that starts none of the recognized forms stands where a value
    /// is required.
    UnexpectedTag,
    /// The declared length of a byte string exceeds what is left of the
    /// buffer.
    LengthOutOfBounds,
}

/// One decoded node.
#[derive(Debug)]
pub enum BencodingValue {
    String(Vec<u8>),
    Integer(i64),
    Dict(BencodingDict),
    List(Vec<BencodingValue>),
}

/// A dictionary from byte strings to values that keeps its entries in the
/// order in which their keys were first inserted.
#[derive(Debug)]
pub struct BencodingDict {
    entries: Vec<(Vec<u8>, BencodingValue)>,
}

/// The mathematical value of a node.
pub open spec fn node_value(node: BencodingValue) -> Value
    decreases node,
{
    match node {
        BencodingValue::String(bytes) => Value::ByteString(bytes@),
        BencodingValue::Integer(n) => Value::Integer(n as int),
        BencodingValue::Dict(dict) => Value::Dict(dict@),
        BencodingValue::List(items) => Value::List(
            Seq::new(
                items@.len(),
                |i: int|
                    if 0 <= i < items@.len() {
                        node_value(items@[i])
                    } else {
                        arbitrary()
                    },
            ),
        ),
    }
}

impl View for BencodingValue {
    type V = Value;

    open spec fn view(&self) -> Value {
        node_value(*self)
    }
}

impl View for BencodingDict {
    type V = Seq<(Seq<u8>, Value)>;

    closed spec fn view(&self) -> Seq<(Seq<u8>, Value)>
        decreases self,
    {
        Seq::new(
            self.entries@.len(),
            |i: int|
                if 0 <= i < self.entries@.len() {
                    (self.entries@[i].0@, node_value(self.entries@[i].1))
                } else {
                    arbitrary()
                },
        )
    }
}

/// The values of a run of nodes, one by one.
pub open spec fn values_view(items: Seq<BencodingValue>) -> Seq<Value> {
    items.map_values(|item: BencodingValue| item@)
}

/// The value of a list node is the list of the values of its items.
pub proof fn lemma_list_view(items: Vec<BencodingValue>)
    ensures
        BencodingValue::List(items)@ == Value::List(values_view(items@)),
{
    assert(BencodingValue::List(items)@->List_0 =~= values_view(items@));
}

impl BencodingDict {
    /// An empty dictionary.
    pub fn new() -> (dict: Self)
        ensures
            dict@ == Seq::<(Seq<u8>, Value)>::empty(),
    {
        BencodingDict { entries: Vec::new() }
    }

    /// The number of entries.
    pub fn len(&self) -> (n: usize)
        ensures
            n == self@.len(),
    {
        self.entries.len()
    }

    /// The key and the value of the entry at `index`, counted from zero in
    /// the order in which the keys were first inserted, or `None` where the
    /// dictionary has no more than `index` entries.
    pub fn entry(&self, index: usize) -> (found: Option<(&[u8], &BencodingValue)>)
        ensures
            match found {
                Some((key, value)) => index < self@.len() && self@[index as int] == (
                    key@,
                    value@,
                ),
                None => index >= self@.len(),
            },
    {
        if index < self.entries.len() {
            Some((self.entries[index].0.as_slice(), &self.entries[index].1))
        } else {
            None
        }
    }

    /// The index of the entry that has `key`.
    fn position(&self, key: &[u8]) -> (found: Option<usize>)
        ensures
            match found {
                Some(i) => i < self.entries@.len() && dict_keys(self@).index_of_first(key@) == Some(
                    i as int,
                ),
                None => dict_keys(self@).index_of_first(key@) == None::<int>,
            },
    {
        let ghost keys = dict_keys(self@);
        let mut i: usize = 0;
        while i < self.entries.len()
            invariant
                i <= self.entries@.len(),
                keys == dict_keys(self@),
                keys.len() == self.entries@.len(),
                forall|j: int| 0 <= j < i ==> keys[j] != key@,
            decreases self.entries@.len() - i,
        {
            if same_bytes(self.entries[i].0.as_slice(), key) {
                proof {
                    assert(keys[i as int] == key@);
                    keys.index_of_first_ensures(key@);
                }
                return Some(i);
            }
            assert(keys[i as int] != key@);
            i += 1;
        }
        proof {
            keys.index_of_first_ensures(key@);
        }
        None
    }

    /// A reference to the value stored under `key`, or `None` where the
    /// dictionary has no entry with that key.
    pub fn get(&self, key: &[u8]) -> (found: Option<&BencodingValue>)
        ensures
            match found {
                Some(value) => dict_get(self@, key@) == Some(value@),
                None => dict_get(self@, key@) == None::<Value>,
            },
    {
        match self.position(key) {
            Some(i) => Some(&self.entries[i].1),
            None => None,
        }
    }

    /// Stores `value` under `key`. An entry that already has this key keeps
    /// its place and gets the new value; otherwise a new entry is appended.
    pub fn insert(&mut self, key: Vec<u8>, value: BencodingValue)
        ensures
            final(self)@ == dict_insert(old(self)@, key@, value@),
    {
        match self.position(key.as_slice()) {
            Some(i) => {
                self.entries[i] = (key, value);
            },
            None => {
                self.entries.push((key, value));
            },
        }
    }
}

impl Clone for BencodingValue {
    /// A deep copy: the copy has the value of the node it was made from.
    fn clone(&self) -> (copy: Self)
        ensures
            copy@ == self@,
        decreases self,
    {
        match self {
            BencodingValue::String(bytes) => BencodingValue::String(slice_to_vec(bytes.as_slice())),
            BencodingValue::Integer(n) => BencodingValue::Integer(*n),
            BencodingValue::Dict(dict) => BencodingValue::Dict(dict.clone()),
            BencodingValue::List(items) => {
                let mut copies: Vec<BencodingValue> = Vec::new();
                let mut i: usize = 0;
                while i < items.len()
                    invariant
                        *self == BencodingValue::List(*items),
                        i <= items@.len(),
                        copies@.len() == i,
                        forall|j: int| 0 <= j < i ==> copies@[j]@ == items@[j]@,
                    decreases items@.len() - i,
                {
                    assert(decreases_to!(*self => self->List_0[i as int]));
                    copies.push(items[i].clone());
                    i += 1;
                }
                proof {
                    lemma_list_view(copies);
                    lemma_list_view(*items);
                    assert(values_view(copies@) =~= values_view(items@));
                }
                BencodingValue::List(copies)
            },
        }
    }
}

impl Clone for BencodingDict {
    /// A deep copy: the copy has the entries of the dictionary it was made
    /// from, in their order.
    fn clone(&self) -> (copy: Self)
        ensures
            copy@ == self@,
        decreases self,
    {
        let mut entries: Vec<(Vec<u8>, BencodingValue)> = Vec::new();
        let mut i: usize = 0;
        while i < self.entries.len()
            invariant
                i <= self.entries@.len(),
                entries@.len() == i,
                forall|j: int|
                    0 <= j < i ==> entries@[j].0@ == self.entries@[j].0@ && entries@[j].1@
                        == self.entries@[j].1@,
            decreases self.entries@.len() - i,
        {
            let key = slice_to_vec(self.entries[i].0.as_slice());
            let value = self.entries[i].1.clone();
            entries.push((key, value));
            i += 1;
        }
        let copy = BencodingDict { entries };
        assert(copy@ == self@);
        copy
    }
}

/// Whether two slices hold the same bytes.
fn same_bytes(a: &[u8], b: &[u8]) -> (same: bool)
    ensures
        same == (a@ == b@),
{
    if a.len() != b.len() {
        return false;
    }
    let mut i: usize = 0;
    while i < a.len()
        invariant
            i <= a@.len(),
            a@.len() == b@.len(),
            forall|j: int| 0 <= j < i ==> a@[j] == b@[j],
        decreases a@.len() - i,
    {
        if a[i] != b[i] {
            return false;
        }
        i += 1;
    }
    assert(a@ =~= b@);
    true
}

/// The document that decoding a buffer gives: its top-level dictionary.
pub struct Bencoding {
    dict: BencodingDict,
}

/// The index of the first occurrence of `byte` in `data`.
fn find_byte(data: &[u8], byte: u8) -> (found: Option<usize>)
    ensures
        match found {
            Some(i) => i < data@.len() && data@.index_of_first(byte) == Some(i as int),
            None => data@.index_of_first(byte) == None::<int>,
        },
{
    let mut i: usize = 0;
    while i < data.len()
        invariant
            i <= data.len(),
            forall|j: int| 0 <= j < i ==> data@[j] != byte,
        decreases data.len() - i,
    {
        if data[i] == byte {
            proof {
                data@.index_of_first_ensures(byte);
            }
            return Some(i);
        }
        i += 1;
    }
    proof {
        data@.index_of_first_ensures(byte);
    }
    None
}

/// Whether `data` holds decimal digits only.
fn only_digits(data: &[u8]) -> (yes: bool)
    ensures
        yes == all_digits(data@),
{
    let mut i: usize = 0;
    while i < data.len()
        invariant
            i <= data.len(),
            forall|j: int| 0 <= j < i ==> is_digit(#[trigger] data@[j]),
        decreases data.len() - i,
    {
        if data[i] < ZERO || data[i] > NINE {
            assert(!is_digit(data@[i as int]));
            return false;
        }
        i += 1;
    }
    true
}

/// A prefix of a run of digits writes no greater a number than the whole run.
proof fn lemma_decimal_value_of_prefix(digits: Seq<u8>, n: int)
    requires
        all_digits(digits),
        0 <= n <= digits.len(),
    ensures
        decimal_value(digits.take(n)) <= decimal_value(digits),
    decreases digits.len(),
{
    if n == digits.len() {
        assert(digits.take(n) =~= digits);
    } else {
        lemma_decimal_value_of_prefix(digits.drop_last(), n);
        assert(digits.drop_last().take(n) =~= digits.take(n));
    }
}

/// The number that `digits` write, where it does not exceed `limit`.
fn decode_decimal(digits: &[u8], limit: u64) -> (value: Option<u64>)
    requires
        all_digits(digits@),
    ensures
        match value {
            Some(n) => n == decimal_value(digits@) && n <= limit,
            None => decimal_value(digits@) > limit,
        },
{
    let mut value: u64 = 0;
    let mut i: usize = 0;
    while i < digits.len()
        invariant
            i <= digits.len(),
            all_digits(digits@),
            value == decimal_value(digits@.take(i as int)),
            value <= limit,
        decreases digits.len() - i,
    {
        assert(is_digit(digits@[i as int]));
        let digit: u8 = digits[i] - ZERO;
        let next: u128 = value as u128 * 10 + digit as u128;
        proof {
            assert(digits@.take(i + 1).drop_last() =~= digits@.take(i as int));
            assert(next == decimal_value(digits@.take(i + 1)));
        }
        if next > limit as u128 {
            proof {
                lemma_decimal_value_of_prefix(digits@, i + 1);
            }
            return None;
        }
        value = next as u64;
        i += 1;
    }
    assert(digits@.take(i as int) =~= digits@);
    Some(value)
}

impl View for Bencoding {
    type V = Seq<(Seq<u8>, Value)>;

    /// The entries of the top-level dictionary.
    closed spec fn view(&self) -> Seq<(Seq<u8>, Value)> {
        self.dict@
    }
}

impl Bencoding {
    /// Decodes the dictionary at the front of `data`. Bytes that follow
    /// the dictionary are ignored.
    ///
    /// Fails with the first error that reading the dictionary meets:
    /// `TruncatedInput` where `data` is empty and `UnexpectedTag` where it
    /// does not begin with `d`, otherwise as `decode_dict` says.
    pub fn decode(data: &[u8]) -> (result: Result<Self, BencodingError>)
        ensures
            match result {
                Ok(document) => parse_document(data@) == Ok::<_, BencodingError>(document@),
                Err(e) => parse_document(data@) == Err::<Seq<(Seq<u8>, Value)>, _>(e),
            },
    {
        match Self::decode_dict(data) {
            Ok((dict, _)) => Ok(Self { dict }),
            Err(e) => Err(e),
        }
    }

    /// A copy of the value that the top-level dictionary holds under
    /// `key`, or `None` where it has no such key. Dictionaries nested in
    /// values are not searched.
    pub fn get(&self, key: &[u8]) -> (found: Option<BencodingValue>)
        ensures
            match found {
                Some(value) => dict_get(self@, key@) == Some(value@),
                None => dict_get(self@, key@) == None::<Value>,
            },
    {
        match self.dict.get(key) {
            Some(value) => Some(value.clone()),
            None => None,
        }
    }

    /// Reads a dictionary, `d(<byte string><value>)*e`, from the front of
    /// `data` and gives it with the rest of the buffer.
    ///
    /// Keys may come in any order. Where a key occurs more than once, its
    /// entry keeps the place of the first occurrence and the value of the
    /// last.
    ///
    /// Fails with `TruncatedInput` where `data` is empty or ends before
    /// the closing `e`, with `UnexpectedTag` where the first byte is not
    /// `d`, and with the error of the first key or value that cannot be
    /// read.
    pub fn decode_dict<'a>(data: &'a [u8]) -> (result: Result<
        (BencodingDict, &'a [u8]),
        BencodingError,
    >)
        ensures
            match result {
                Ok((dict, rest)) => parse_dict(data@) == Ok::<_, BencodingError>((dict@, rest@)),
                Err(e) => parse_dict(data@) == Err::<(Seq<(Seq<u8>, Value)>, Seq<u8>), _>(e),
            },
        decreases data@.len(), 1nat,
    {
        let len = data.len();
        if len == 0 {
            return Err(BencodingError::TruncatedInput);
        }
        if data[0] != DICT_TAG {
            return Err(BencodingError::UnexpectedTag);
        }
        let mut cursor = slice_subrange(data, 1, len);
        let mut dict = BencodingDict::new();
        let ghost mut pairs: Seq<(Seq<u8>, Value)> = Seq::empty();
        loop
            invariant
                cursor@.len() < data@.len(),
                data@.len() > 0,
                data@[0] == DICT_TAG,
                dict@ == dict_of(pairs),
                parse_dict_pairs(data@.skip(1)) == prepend(pairs, parse_dict_pairs(cursor@)),
            decreases cursor@.len(),
        {
            let left = cursor.len();
            if left == 0 {
                return Err(BencodingError::TruncatedInput);
            }
            if cursor[0] == END {
                let rest = slice_subrange(cursor, 1, left);
                assert(pairs + Seq::empty() =~= pairs);
                return Ok((dict, rest));
            }
            let (key, after_key) = match Self::decode_string(cursor) {
                Ok(read) => read,
                Err(e) => {
                    return Err(e);
                },
            };
            proof {
                lemma_string_consumes(cursor@);
            }
            let (value, rest) = match Self::decode_next(after_key) {
                Ok(read) => read,
                Err(e) => {
                    return Err(e);
                },
            };
            proof {
                lemma_value_consumes(after_key@);
                lemma_prepend_twice(pairs, seq![(key@, value@)], parse_dict_pairs(rest@));
                assert(pairs + seq![(key@, value@)] =~= pairs.push((key@, value@)));
                assert(pairs.push((key@, value@)).drop_last() =~= pairs);
                pairs = pairs.push((key@, value@));
            }
            dict.insert(key, value);
            cursor = rest;
        }
    }

    /// Reads a list, `l<value>*e`, from the front of `data` and gives its
    /// items in order with the rest of the buffer.
    ///
    /// Fails with `TruncatedInput` where `data` is empty or ends before
    /// the closing `e`, with `UnexpectedTag` where the first byte is not
    /// `l`, and with the error of the first item that cannot be read.
    pub fn decode_list<'a>(data: &'a [u8]) -> (result: Result<
        (Vec<BencodingValue>, &'a [u8]),
        BencodingError,
    >)
        ensures
            match result {
                Ok((items, rest)) => parse_list(data@) == Ok::<_, BencodingError>(
                    (values_view(items@), rest@),
                ),
                Err(e) => parse_list(data@) == Err::<(Seq<Value>, Seq<u8>), _>(e),
            },
        decreases data@.len(), 1nat,
    {
        let len = data.len();
        if len == 0 {
            return Err(BencodingError::TruncatedInput);
        }
        if data[0] != LIST_TAG {
            return Err(BencodingError::UnexpectedTag);
        }
        let mut cursor = slice_subrange(data, 1, len);
        let mut list: Vec<BencodingValue> = Vec::new();
        loop
            invariant
                cursor@.len() < data@.len(),
                data@.len() > 0,
                data@[0] == LIST_TAG,
                parse_list_items(data@.skip(1)) == prepend(
                    values_view(list@),
                    parse_list_items(cursor@),
                ),
            decreases cursor@.len(),
        {
            let left = cursor.len();
            if left == 0 {
                return Err(BencodingError::TruncatedInput);
            }
            if cursor[0] == END {
                let rest = slice_subrange(cursor, 1, left);
                assert(values_view(list@) + Seq::empty() =~= values_view(list@));
                return Ok((list, rest));
            }
            let (value, rest) = match Self::decode_next(cursor) {
                Ok(read) => read,
                Err(e) => {
                    return Err(e);
                },
            };
            proof {
                lemma_value_consumes(cursor@);
                lemma_prepend_twice(values_view(list@), seq![value@], parse_list_items(rest@));
                assert(values_view(list@) + seq![value@] =~= values_view(list@.push(value)));
            }
            list.push(value);
            cursor = rest;
        }
    }

    /// Reads one value of any form from the front of `data` and gives it
    /// with the rest of the buffer. The first byte decides the form: `i`
    /// an integer, `l` a list, `d` a dictionary, a decimal digit a byte
    /// string.
    ///
    /// Fails with `TruncatedInput` where `data` is empty, with
    /// `UnexpectedTag` where the first byte opens none of these forms, and
    /// otherwise as the function for that form says.
    pub fn decode_next<'a>(data: &'a [u8]) -> (result: Result<
        (BencodingValue, &'a [u8]),
        BencodingError,
    >)
        ensures
            match result {
                Ok((value, rest)) => parse_value(data@) == Ok::<_, BencodingError>(
                    (value@, rest@),
                ),
                Err(e) => parse_value(data@) == Err::<(Value, Seq<u8>), _>(e),
            },
        decreases data@.len(), 2nat,
    {
        if data.len() == 0 {
            return Err(BencodingError::TruncatedInput);
        }
        let tag = data[0];
        if tag == INTEGER_TAG {
            match Self::decode_integer(data) {
                Ok((value, rest)) => Ok((BencodingValue::Integer(value), rest)),
                Err(e) => Err(e),
            }
        } else if tag == LIST_TAG {
            match Self::decode_list(data) {
                Ok((items, rest)) => {
                    proof {
                        lemma_list_view(items);
                    }
                    Ok((BencodingValue::List(items), rest))
                },
                Err(e) => Err(e),
            }
        } else if tag == DICT_TAG {
            match Self::decode_dict(data) {
                Ok((dict, rest)) => Ok((BencodingValue::Dict(dict), rest)),
                Err(e) => Err(e),
            }
        } else if ZERO <= tag && tag <= NINE {
            match Self::decode_string(data) {
                Ok((bytes, rest)) => Ok((BencodingValue::String(bytes), rest)),
                Err(e) => Err(e),
            }
        } else {
            Err(BencodingError::UnexpectedTag)
        }
    }

    /// Reads a byte string, `<length>:<payload>`, from the front of `data`
    /// and gives its payload, byte for byte, with the rest of the buffer.
    ///
    /// The length field may have leading zeros. No text decoding is
    /// applied to the payload.
    ///
    /// Fails with `TruncatedInput` where `data` holds no `:`, with
    /// `InvalidLengthPrefix` where what stands before the first `:` is not
    /// a non-empty run of decimal digits, and with `LengthOutOfBounds`
    /// where fewer bytes follow the `:` than the length field declares.
    pub fn decode_string<'a>(data: &'a [u8]) -> (result: Result<(Vec<u8>, &'a [u8]), BencodingError>)
        ensures
            match result {
                Ok((value, rest)) => parse_string(data@) == Ok::<_, BencodingError>(
                    (value@, rest@),
                ),
                Err(e) => parse_string(data@) == Err::<(Seq<u8>, Seq<u8>), _>(e),
            },
    {
        let colon = match find_byte(data, SEPARATOR) {
            Some(colon) => colon,
            None => {
                return Err(BencodingError::TruncatedInput);
            },
        };
        proof {
            data@.index_of_first_ensures(SEPARATOR);
        }
        let len = data.len();
        let field = slice_subrange(data, 0, colon);
        let body = slice_subrange(data, colon + 1, len);
        if field.len() == 0 || !only_digits(field) {
            return Err(BencodingError::InvalidLengthPrefix);
        }
        match decode_decimal(field, body.len() as u64) {
            None => Err(BencodingError::LengthOutOfBounds),
            Some(length) => {
                let length = length as usize;
                let value = slice_to_vec(slice_subrange(body, 0, length));
                let rest = slice_subrange(body, length, body.len());
                Ok((value, rest))
            },
        }
    }

    /// Reads an integer, `i<literal>e`, from the front of `data` and gives
    /// its value with the rest of the buffer.
    ///
    /// Fails with `TruncatedInput` where `data` is empty or holds no `e`
    /// behind its first byte, with `UnexpectedTag` where the first byte is
    /// not `i`, and with `InvalidInteger` where the literal is malformed
    /// (empty, a lone `-`, a byte that is no digit, a leading zero, `-0`)
    /// or its value does not fit an `i64`.
    pub fn decode_integer<'a>(data: &'a [u8]) -> (result: Result<(i64, &'a [u8]), BencodingError>)
        ensures
            match result {
                Ok((value, rest)) => parse_integer(data@) == Ok::<_, BencodingError>(
                    (value as int, rest@),
                ),
                Err(e) => parse_integer(data@) == Err::<(int, Seq<u8>), _>(e),
            },
    {
        if data.len() == 0 {
            return Err(BencodingError::TruncatedInput);
        }
        if data[0] != INTEGER_TAG {
            return Err(BencodingError::UnexpectedTag);
        }
        let body = slice_subrange(data, 1, data.len());
        let end = match find_byte(body, END) {
            Some(end) => end,
            None => {
                return Err(BencodingError::TruncatedInput);
            },
        };
        proof {
            body@.index_of_first_ensures(END);
        }
        let text = slice_subrange(body, 0, end);
        let negative = text.len() > 0 && text[0] == MINUS;
        let digits = if negative {
            slice_subrange(text, 1, text.len())
        } else {
            text
        };
        if digits.len() == 0 || !only_digits(digits) {
            return Err(BencodingError::InvalidInteger);
        }
        if digits[0] == ZERO && (digits.len() > 1 || negative) {
            return Err(BencodingError::InvalidInteger);
        }
        let limit: u64 = if negative {
            0x8000_0000_0000_0000
        } else {
            0x7fff_ffff_ffff_ffff
        };
        match decode_decimal(digits, limit) {
            None => Err(BencodingError::InvalidInteger),
            Some(magnitude) => {
                let value: i64 = if !negative {
                    magnitude as i64
                } else if magnitude == 0x8000_0000_0000_0000 {
                    i64::MIN
                } else {
                    -(magnitude as i64)
                };
                let rest = slice_subrange(body, end + 1, body.len());
                assert(rest@ =~= data@.skip(end + 2));
                Ok((value, rest))
            },
        }
    }
}

} // verus!
