//! The bencode grammar, as functions from bytes to the decoded value and
//! the bytes that follow it.
//!
//! Every function here reads one form from the front of its argument. On
//! success it gives the value of that form together with the unread rest
//! of the input; otherwise it gives the reason for which the input was
//! turned down.

use crate::bencoding_parser::BencodingError;
use crate::value::{dict_insert, Value};
use vstd::prelude::*;

verus! {

/// `i`, which opens an integer.
pub const INTEGER_TAG: u8 = 0x69;

/// `l`, which opens a list.
pub const LIST_TAG: u8 = 0x6c;

/// `d`, which opens a dictionary.
pub const DICT_TAG: u8 = 0x64;

/// `e`, which closes an integer, a list or a dictionary.
pub const END: u8 = 0x65;

/// `:`, which parts the length of a byte string from its payload.
pub const SEPARATOR: u8 = 0x3a;

/// `-`, the sign of a negative integer.
pub const MINUS: u8 = 0x2d;

/// `0`, the lowest decimal digit.
pub const ZERO: u8 = 0x30;

/// `9`, the highest decimal digit.
pub const NINE: u8 = 0x39;

/// What reading one form gives: its value and the unread rest of the
/// input, or the reason for the failure.
pub type Parsed<T> = Result<(T, Seq<u8>), BencodingError>;

/// Whether `byte` is an ASCII decimal digit.
pub open spec fn is_digit(byte: u8) -> bool {
    ZERO <= byte <= NINE
}

/// Whether every byte of `bytes` is an ASCII decimal digit.
pub open spec fn all_digits(bytes: Seq<u8>) -> bool {
    forall|i: int| 0 <= i < bytes.len() ==> is_digit(#[trigger] bytes[i])
}

/// The number that a run of decimal digits writes in base ten. The empty
/// run writes zero.
pub open spec fn decimal_value(digits: Seq<u8>) -> nat
    decreases digits.len(),
{
    if digits.len() == 0 {
        0
    } else {
        (10 * decimal_value(digits.drop_last()) + (digits.last() - ZERO)) as nat
    }
}

/// A byte string, `<length>:<payload>`.
///
/// The length field runs up to the first `:` and must be a non-empty run of
/// decimal digits; leading zeros are accepted. The payload is the next
/// `length` bytes, taken as they are.
pub open spec fn parse_string(s: Seq<u8>) -> Parsed<Seq<u8>> {
    match s.index_of_first(SEPARATOR) {
        None => Err(BencodingError::TruncatedInput),
        Some(colon) => {
            let field = s.take(colon);
            let body = s.skip(colon + 1);
            if field.len() == 0 || !all_digits(field) {
                Err(BencodingError::InvalidLengthPrefix)
            } else if decimal_value(field) > body.len() {
                Err(BencodingError::LengthOutOfBounds)
            } else {
                let length = decimal_value(field) as int;
                Ok((body.take(length), body.skip(length)))
            }
        },
    }
}

/// Whether `text` begins with a minus sign.
pub open spec fn has_sign(text: Seq<u8>) -> bool {
    text.len() > 0 && text[0] == MINUS
}

/// The digits of an integer literal: the text without its sign.
pub open spec fn literal_digits(text: Seq<u8>) -> Seq<u8> {
    if has_sign(text) {
        text.skip(1)
    } else {
        text
    }
}

/// Whether `text` is a well-formed integer literal: an optional `-` and
/// then at least one decimal digit, where a leading `0` is allowed only in
/// the literal `0` itself. So `03`, `-0`, `-03`, `+3`, `-` and the empty
/// text are all turned down.
pub open spec fn is_integer_literal(text: Seq<u8>) -> bool {
    let digits = literal_digits(text);
    &&& digits.len() > 0
    &&& all_digits(digits)
    &&& digits[0] == ZERO ==> digits.len() == 1 && !has_sign(text)
}

/// The number that an integer literal writes.
pub open spec fn literal_value(text: Seq<u8>) -> int {
    if has_sign(text) {
        -(decimal_value(literal_digits(text)) as int)
    } else {
        decimal_value(literal_digits(text)) as int
    }
}

/// An integer, `i<literal>e`.
///
/// The literal runs from behind the `i` up to the first `e`. It must be
/// well formed and its value must fit an `i64`.
pub open spec fn parse_integer(s: Seq<u8>) -> Parsed<int> {
    if s.len() == 0 {
        Err(BencodingError::TruncatedInput)
    } else if s[0] != INTEGER_TAG {
        Err(BencodingError::UnexpectedTag)
    } else {
        match s.skip(1).index_of_first(END) {
            None => Err(BencodingError::TruncatedInput),
            Some(end) => {
                let text = s.skip(1).take(end);
                if is_integer_literal(text) && i64::MIN <= literal_value(text) <= i64::MAX {
                    Ok((literal_value(text), s.skip(end + 2)))
                } else {
                    Err(BencodingError::InvalidInteger)
                }
            },
        }
    }
}

/// The outcome `tail` with `head` put in front of the items it holds.
pub open spec fn prepend<T>(head: Seq<T>, tail: Parsed<Seq<T>>) -> Parsed<Seq<T>> {
    match tail {
        Ok((items, rest)) => Ok((head + items, rest)),
        Err(e) => Err(e),
    }
}

/// Any value: the first byte decides which form is read.
///
/// `i` opens an integer, `l` a list, `d` a dictionary and a decimal digit
/// a byte string. Empty input is truncated; any other first byte is an
/// unexpected tag.
pub open spec fn parse_value(s: Seq<u8>) -> Parsed<Value>
    decreases s.len(), 2nat,
{
    if s.len() == 0 {
        Err(BencodingError::TruncatedInput)
    } else if s[0] == INTEGER_TAG {
        match parse_integer(s) {
            Ok((n, rest)) => Ok((Value::Integer(n), rest)),
            Err(e) => Err(e),
        }
    } else if s[0] == LIST_TAG {
        match parse_list(s) {
            Ok((items, rest)) => Ok((Value::List(items), rest)),
            Err(e) => Err(e),
        }
    } else if s[0] == DICT_TAG {
        match parse_dict(s) {
            Ok((entries, rest)) => Ok((Value::Dict(entries), rest)),
            Err(e) => Err(e),
        }
    } else if is_digit(s[0]) {
        match parse_string(s) {
            Ok((bytes, rest)) => Ok((Value::ByteString(bytes), rest)),
            Err(e) => Err(e),
        }
    } else {
        Err(BencodingError::UnexpectedTag)
    }
}

/// A list, `l<value>*e`.
pub open spec fn parse_list(s: Seq<u8>) -> Parsed<Seq<Value>>
    decreases s.len(), 1nat,
{
    if s.len() == 0 {
        Err(BencodingError::TruncatedInput)
    } else if s[0] != LIST_TAG {
        Err(BencodingError::UnexpectedTag)
    } else {
        parse_list_items(s.skip(1))
    }
}

/// The values of a list from some point on, up to and including the
/// closing `e`.
///
/// The test that the rest got shorter only serves to show that the
/// definition is well founded: a value that was read is never empty
/// (`lemma_value_consumes`).
pub open spec fn parse_list_items(s: Seq<u8>) -> Parsed<Seq<Value>>
    decreases s.len(), 3nat,
{
    if s.len() == 0 {
        Err(BencodingError::TruncatedInput)
    } else if s[0] == END {
        Ok((Seq::empty(), s.skip(1)))
    } else {
        match parse_value(s) {
            Err(e) => Err(e),
            Ok((value, rest)) => if rest.len() < s.len() {
                prepend(seq![value], parse_list_items(rest))
            } else {
                Err(BencodingError::TruncatedInput)
            },
        }
    }
}

/// A dictionary, `d(<byte string><value>)*e`.
///
/// Keys may come in any order. Where a key occurs more than once, the
/// entry keeps the place of the first occurrence and the value of the
/// last.
pub open spec fn parse_dict(s: Seq<u8>) -> Parsed<Seq<(Seq<u8>, Value)>>
    decreases s.len(), 1nat,
{
    if s.len() == 0 {
        Err(BencodingError::TruncatedInput)
    } else if s[0] != DICT_TAG {
        Err(BencodingError::UnexpectedTag)
    } else {
        match parse_dict_pairs(s.skip(1)) {
            Ok((pairs, rest)) => Ok((dict_of(pairs), rest)),
            Err(e) => Err(e),
        }
    }
}

/// The key-value pairs of a dictionary from some point on, as they are
/// written, up to and including the closing `e`.
///
/// As in `parse_list_items`, the test that the rest got shorter only
/// serves to show that the definition is well founded.
pub open spec fn parse_dict_pairs(s: Seq<u8>) -> Parsed<Seq<(Seq<u8>, Value)>>
    decreases s.len(), 3nat,
{
    if s.len() == 0 {
        Err(BencodingError::TruncatedInput)
    } else if s[0] == END {
        Ok((Seq::empty(), s.skip(1)))
    } else {
        match parse_string(s) {
            Err(e) => Err(e),
            Ok((key, after_key)) => {
                proof {
                    s.index_of_first_ensures(SEPARATOR);
                }
                match parse_value(after_key) {
                    Err(e) => Err(e),
                    Ok((value, rest)) => if rest.len() < s.len() {
                        prepend(seq![(key, value)], parse_dict_pairs(rest))
                    } else {
                        Err(BencodingError::TruncatedInput)
                    },
                }
            },
        }
    }
}

/// The dictionary that a run of key-value pairs builds when they are
/// inserted one after the other into an empty dictionary.
pub open spec fn dict_of(pairs: Seq<(Seq<u8>, Value)>) -> Seq<(Seq<u8>, Value)>
    decreases pairs.len(),
{
    if pairs.len() == 0 {
        Seq::empty()
    } else {
        dict_insert(dict_of(pairs.drop_last()), pairs.last().0, pairs.last().1)
    }
}

/// A whole document: one dictionary at the front of the buffer. Bytes
/// that follow the dictionary are ignored.
pub open spec fn parse_document(s: Seq<u8>) -> Result<Seq<(Seq<u8>, Value)>, BencodingError> {
    match parse_dict(s) {
        Ok((entries, _)) => Ok(entries),
        Err(e) => Err(e),
    }
}

} // verus!
