//! What holds of the grammar on every input.

use crate::bencoding_parser::BencodingError;
use crate::grammar::{
    all_digits, decimal_value, dict_of, is_digit, parse_dict, parse_dict_pairs, parse_document,
    parse_integer, parse_list, parse_list_items, parse_string, parse_value, prepend, Parsed, END,
    SEPARATOR,
};
use crate::occurrence::{
    lemma_first_occurrence, lemma_first_occurrence_append, lemma_index_of_first,
};
use crate::value::{
    all_well_formed, dict_get, dict_insert, dict_keys, keys_unique, lemma_get_after_insert,
    lemma_insert_keeps_keys_unique, lemma_well_formed_dict, lemma_well_formed_list,
    values_well_formed, well_formed, Value,
};
use vstd::prelude::*;

verus! {

/// Whether `rest` is what is left of `s` after at least one byte was read
/// from its front.
pub open spec fn is_proper_suffix(rest: Seq<u8>, s: Seq<u8>) -> bool {
    rest.len() < s.len() && rest == s.skip(s.len() - rest.len())
}

/// Whether reading from `s` either failed or left a proper suffix of `s`.
pub open spec fn consumes<T>(outcome: Parsed<T>, s: Seq<u8>) -> bool {
    match outcome {
        Ok((_, rest)) => is_proper_suffix(rest, s),
        Err(_) => true,
    }
}

/// A suffix of a suffix is a suffix.
pub proof fn lemma_suffix_transitive(a: Seq<u8>, b: Seq<u8>, c: Seq<u8>)
    requires
        is_proper_suffix(a, b),
        is_proper_suffix(b, c) || b == c,
    ensures
        is_proper_suffix(a, c),
{
    if b != c {
        assert(a =~= c.skip(c.len() - a.len()));
    }
}

/// A byte string that was read took at least one byte, and what is left
/// is the end of the input.
pub proof fn lemma_string_consumes(s: Seq<u8>)
    ensures
        consumes(parse_string(s), s),
{
    s.index_of_first_ensures(SEPARATOR);
    if let Ok((_, rest)) = parse_string(s) {
        assert(rest =~= s.skip(s.len() - rest.len()));
    }
}

/// An integer that was read took at least one byte, and what is left is
/// the end of the input.
pub proof fn lemma_integer_consumes(s: Seq<u8>)
    ensures
        consumes(parse_integer(s), s),
{
    if s.len() > 0 {
        s.skip(1).index_of_first_ensures(END);
        if let Ok((_, rest)) = parse_integer(s) {
            assert(rest =~= s.skip(s.len() - rest.len()));
        }
    }
}

/// Every value that was read took at least one byte, and what is left is
/// the end of the input. So no run of reads can stay at one place of the
/// buffer.
pub proof fn lemma_value_consumes(s: Seq<u8>)
    ensures
        consumes(parse_value(s), s),
    decreases s.len(), 2nat,
{
    if s.len() > 0 {
        lemma_integer_consumes(s);
        lemma_string_consumes(s);
        lemma_list_consumes(s);
        lemma_dict_consumes(s);
    }
}

/// A list that was read took at least one byte, and what is left is the
/// end of the input.
pub proof fn lemma_list_consumes(s: Seq<u8>)
    ensures
        consumes(parse_list(s), s),
    decreases s.len(), 1nat,
{
    if s.len() > 0 {
        lemma_list_items_consume(s.skip(1));
        if let Ok((_, rest)) = parse_list(s) {
            lemma_suffix_transitive(rest, s.skip(1), s);
        }
    }
}

/// The items and closing `e` of a list took at least one byte.
pub proof fn lemma_list_items_consume(s: Seq<u8>)
    ensures
        consumes(parse_list_items(s), s),
    decreases s.len(), 3nat,
{
    if s.len() > 0 && s[0] != END {
        lemma_value_consumes(s);
        if let Ok((_, after)) = parse_value(s) {
            lemma_list_items_consume(after);
            if let Ok((_, rest)) = parse_list_items(after) {
                lemma_suffix_transitive(rest, after, s);
            }
        }
    }
}

/// A dictionary that was read took at least one byte, and what is left is
/// the end of the input.
pub proof fn lemma_dict_consumes(s: Seq<u8>)
    ensures
        consumes(parse_dict(s), s),
    decreases s.len(), 1nat,
{
    if s.len() > 0 {
        lemma_dict_pairs_consume(s.skip(1));
        if let Ok((_, rest)) = parse_dict_pairs(s.skip(1)) {
            lemma_suffix_transitive(rest, s.skip(1), s);
        }
    }
}

/// The pairs and closing `e` of a dictionary took at least one byte.
pub proof fn lemma_dict_pairs_consume(s: Seq<u8>)
    ensures
        consumes(parse_dict_pairs(s), s),
    decreases s.len(), 3nat,
{
    if s.len() > 0 && s[0] != END {
        lemma_string_consumes(s);
        if let Ok((_, after_key)) = parse_string(s) {
            lemma_value_consumes(after_key);
            if let Ok((_, after)) = parse_value(after_key) {
                lemma_suffix_transitive(after, after_key, s);
                lemma_dict_pairs_consume(after);
                if let Ok((_, rest)) = parse_dict_pairs(after) {
                    lemma_suffix_transitive(rest, after, s);
                }
            }
        }
    }
}

/// The items of a list are the first value and then the items behind it:
/// the test in `parse_list_items` that the rest got shorter never fails.
pub proof fn lemma_list_items_unfold(s: Seq<u8>)
    requires
        s.len() > 0,
        s[0] != END,
    ensures
        parse_list_items(s) == match parse_value(s) {
            Ok((value, rest)) => prepend(seq![value], parse_list_items(rest)),
            Err(e) => Err(e),
        },
{
    lemma_value_consumes(s);
}

/// The pairs of a dictionary are the first key, its value, and then the
/// pairs behind them: the test in `parse_dict_pairs` that the rest got
/// shorter never fails.
pub proof fn lemma_dict_pairs_unfold(s: Seq<u8>)
    requires
        s.len() > 0,
        s[0] != END,
    ensures
        parse_dict_pairs(s) == match parse_string(s) {
            Ok((key, after_key)) => match parse_value(after_key) {
                Ok((value, rest)) => prepend(seq![(key, value)], parse_dict_pairs(rest)),
                Err(e) => Err(e),
            },
            Err(e) => Err(e),
        },
{
    lemma_string_consumes(s);
    if let Ok((_, after_key)) = parse_string(s) {
        lemma_value_consumes(after_key);
    }
}

/// Putting `a` and then `b` in front of an outcome is putting `a + b` in
/// front of it.
pub proof fn lemma_prepend_twice<T>(a: Seq<T>, b: Seq<T>, tail: Parsed<Seq<T>>)
    ensures
        prepend(a, prepend(b, tail)) == prepend(a + b, tail),
{
    if let Ok((items, _)) = tail {
        assert(a + (b + items) =~= (a + b) + items);
    }
}

/// Whether a failure says that the buffer ended too early: more bytes
/// behind it might have let the read go on.
pub open spec fn is_shortage(e: BencodingError) -> bool {
    e == BencodingError::TruncatedInput || e == BencodingError::LengthOutOfBounds
}

/// Whether `longer` is what reading a buffer must give after the bytes `t`
/// were appended to it, where reading it without them gave `outcome`: a
/// value that was read is read again and `t` joins the rest; a failure
/// stays, unless it was a shortage.
pub open spec fn extended<T>(outcome: Parsed<T>, longer: Parsed<T>, t: Seq<u8>) -> bool {
    match outcome {
        Ok((value, rest)) => longer == Ok::<_, BencodingError>((value, rest + t)),
        Err(e) => is_shortage(e) || longer == Err::<(T, Seq<u8>), _>(e),
    }
}

/// Putting items in front of both outcomes keeps one the extension of the
/// other.
pub proof fn lemma_prepend_extended<T>(
    head: Seq<T>,
    outcome: Parsed<Seq<T>>,
    longer: Parsed<Seq<T>>,
    t: Seq<u8>,
)
    requires
        extended(outcome, longer, t),
    ensures
        extended(prepend(head, outcome), prepend(head, longer), t),
{
}

/// Bytes behind a byte string do not change how it is read.
pub proof fn lemma_string_extended(p: Seq<u8>, t: Seq<u8>)
    ensures
        extended(parse_string(p), parse_string(p + t), t),
{
    lemma_index_of_first(p, SEPARATOR);
    lemma_first_occurrence_append(p, t, SEPARATOR);
    if let Some(colon) = p.index_of_first(SEPARATOR) {
        let body = p.skip(colon + 1);
        assert((p + t).take(colon) =~= p.take(colon));
        assert((p + t).skip(colon + 1) =~= body + t);
        if let Ok((_, rest)) = parse_string(p) {
            let length = decimal_value(p.take(colon)) as int;
            assert((body + t).take(length) =~= body.take(length));
            assert((body + t).skip(length) =~= body.skip(length) + t);
        }
    }
}

/// Bytes behind an integer do not change how it is read.
pub proof fn lemma_integer_extended(p: Seq<u8>, t: Seq<u8>)
    ensures
        extended(parse_integer(p), parse_integer(p + t), t),
{
    if p.len() > 0 {
        assert((p + t)[0] == p[0]);
        assert((p + t).skip(1) =~= p.skip(1) + t);
        lemma_index_of_first(p.skip(1), END);
        lemma_first_occurrence_append(p.skip(1), t, END);
        if let Some(end) = p.skip(1).index_of_first(END) {
            assert((p.skip(1) + t).take(end) =~= p.skip(1).take(end));
            assert((p + t).skip(end + 2) =~= p.skip(end + 2) + t);
        }
    }
}

/// Trailing bytes are ignored: bytes behind a value do not change how it
/// is read, they only join what is left. And a read that fails for another
/// reason than a shortage fails for that reason whatever follows.
pub proof fn lemma_value_extended(p: Seq<u8>, t: Seq<u8>)
    ensures
        extended(parse_value(p), parse_value(p + t), t),
    decreases p.len(), 2nat,
{
    if p.len() > 0 {
        assert((p + t)[0] == p[0]);
        lemma_integer_extended(p, t);
        lemma_string_extended(p, t);
        lemma_list_extended(p, t);
        lemma_dict_extended(p, t);
    }
}

/// Bytes behind a list do not change how it is read.
pub proof fn lemma_list_extended(p: Seq<u8>, t: Seq<u8>)
    ensures
        extended(parse_list(p), parse_list(p + t), t),
    decreases p.len(), 1nat,
{
    if p.len() > 0 {
        assert((p + t)[0] == p[0]);
        assert((p + t).skip(1) =~= p.skip(1) + t);
        lemma_list_items_extended(p.skip(1), t);
    }
}

/// Bytes behind the closing `e` of a list do not change how its items are
/// read.
pub proof fn lemma_list_items_extended(p: Seq<u8>, t: Seq<u8>)
    ensures
        extended(parse_list_items(p), parse_list_items(p + t), t),
    decreases p.len(), 3nat,
{
    if p.len() > 0 {
        assert((p + t)[0] == p[0]);
        if p[0] == END {
            assert((p + t).skip(1) =~= p.skip(1) + t);
        } else {
            lemma_value_extended(p, t);
            lemma_value_consumes(p);
            if let Ok((value, after)) = parse_value(p) {
                lemma_list_items_extended(after, t);
                lemma_prepend_extended(
                    seq![value],
                    parse_list_items(after),
                    parse_list_items(after + t),
                    t,
                );
            }
        }
    }
}

/// Bytes behind a dictionary do not change how it is read.
pub proof fn lemma_dict_extended(p: Seq<u8>, t: Seq<u8>)
    ensures
        extended(parse_dict(p), parse_dict(p + t), t),
    decreases p.len(), 1nat,
{
    if p.len() > 0 {
        assert((p + t)[0] == p[0]);
        assert((p + t).skip(1) =~= p.skip(1) + t);
        lemma_dict_pairs_extended(p.skip(1), t);
    }
}

/// Bytes behind the closing `e` of a dictionary do not change how its
/// pairs are read.
pub proof fn lemma_dict_pairs_extended(p: Seq<u8>, t: Seq<u8>)
    ensures
        extended(parse_dict_pairs(p), parse_dict_pairs(p + t), t),
    decreases p.len(), 3nat,
{
    if p.len() > 0 {
        assert((p + t)[0] == p[0]);
        if p[0] == END {
            assert((p + t).skip(1) =~= p.skip(1) + t);
        } else {
            lemma_string_extended(p, t);
            lemma_string_consumes(p);
            if let Ok((key, after_key)) = parse_string(p) {
                lemma_value_extended(after_key, t);
                lemma_value_consumes(after_key);
                if let Ok((value, after)) = parse_value(after_key) {
                    lemma_dict_pairs_extended(after, t);
                    lemma_prepend_extended(
                        seq![(key, value)],
                        parse_dict_pairs(after),
                        parse_dict_pairs(after + t),
                        t,
                    );
                }
            }
        }
    }
}

/// Cutting a buffer short never turns into a crash or a wrong value: the
/// first `n` bytes of `s` either read as all of `s` does, with the cut
/// taken from the rest, or the read fails for a shortage of input.
pub proof fn lemma_value_of_cut(s: Seq<u8>, n: int)
    requires
        0 <= n <= s.len(),
    ensures
        match parse_value(s.take(n)) {
            Ok((value, rest)) => parse_value(s) == Ok::<_, BencodingError>(
                (value, rest + s.skip(n)),
            ),
            Err(e) => is_shortage(e) || parse_value(s) == Err::<(Value, Seq<u8>), _>(e),
        },
{
    assert(s.take(n) + s.skip(n) =~= s);
    lemma_value_extended(s.take(n), s.skip(n));
}

/// The same for a whole document: the first `n` bytes of a buffer decode
/// to the document that the whole buffer decodes to, or fail as the whole
/// buffer does, or fail for a shortage of input. So each cut of a buffer
/// that decodes either gives the same document or fails for a shortage.
pub proof fn lemma_document_of_cut(s: Seq<u8>, n: int)
    requires
        0 <= n <= s.len(),
    ensures
        match parse_document(s.take(n)) {
            Ok(entries) => parse_document(s) == Ok::<_, BencodingError>(entries),
            Err(e) => is_shortage(e) || parse_document(s) == Err::<Seq<(Seq<u8>, Value)>, _>(e),
        },
{
    assert(s.take(n) + s.skip(n) =~= s);
    lemma_dict_extended(s.take(n), s.skip(n));
}

/// No text decoding is applied: whatever bytes the payload holds, they
/// are read as they are. `field` stands for any way of writing the length
/// of the payload in decimal digits.
pub proof fn lemma_string_payload_preserved(field: Seq<u8>, payload: Seq<u8>, tail: Seq<u8>)
    requires
        field.len() > 0,
        all_digits(field),
        decimal_value(field) == payload.len(),
    ensures
        parse_string(field + seq![SEPARATOR] + payload + tail) == Ok::<_, BencodingError>(
            (payload, tail),
        ),
{
    let s = field + seq![SEPARATOR] + payload + tail;
    let colon = field.len() as int;
    assert(s[colon] == SEPARATOR);
    assert forall|j: int| 0 <= j < colon implies s[j] != SEPARATOR by {
        assert(s[j] == field[j]);
        assert(is_digit(field[j]));
    }
    lemma_first_occurrence(s, SEPARATOR, colon);
    assert(s.take(colon) =~= field);
    assert(s.skip(colon + 1) =~= payload + tail);
    assert((payload + tail).take(payload.len() as int) =~= payload);
    assert((payload + tail).skip(payload.len() as int) =~= tail);
}

/// Inserting a well-formed value into a dictionary with well-formed values
/// leaves every value well formed.
pub proof fn lemma_insert_keeps_values_well_formed(
    entries: Seq<(Seq<u8>, Value)>,
    key: Seq<u8>,
    value: Value,
)
    requires
        values_well_formed(entries),
        well_formed(value),
    ensures
        values_well_formed(dict_insert(entries, key, value)),
{
    lemma_index_of_first(dict_keys(entries), key);
    let after = dict_insert(entries, key, value);
    assert forall|i: int| 0 <= i < after.len() implies well_formed((#[trigger] after[i]).1) by {
        if after[i] != (key, value) {
            assert(after[i] == entries[i]);
        }
    }
}

/// However often a key is written, the dictionary that the pairs build
/// has it once; and where the value of every pair is well formed, so is
/// every value of the dictionary.
pub proof fn lemma_dict_of_well_formed(pairs: Seq<(Seq<u8>, Value)>)
    ensures
        keys_unique(dict_of(pairs)),
        values_well_formed(pairs) ==> values_well_formed(dict_of(pairs)),
    decreases pairs.len(),
{
    if pairs.len() > 0 {
        let front = pairs.drop_last();
        lemma_dict_of_well_formed(front);
        lemma_insert_keeps_keys_unique(dict_of(front), pairs.last().0, pairs.last().1);
        if values_well_formed(pairs) {
            assert forall|i: int| 0 <= i < front.len() implies well_formed(
                (#[trigger] front[i]).1,
            ) by {
                assert(front[i] == pairs[i]);
            }
            assert(well_formed(pairs[pairs.len() - 1].1));
            lemma_insert_keeps_values_well_formed(
                dict_of(front),
                pairs.last().0,
                pairs.last().1,
            );
        }
    } else {
        assert(dict_keys(dict_of(pairs)) =~= Seq::<Seq<u8>>::empty());
    }
}

/// Every value that is read is well formed: its integers fit an `i64` and
/// none of its dictionaries has a key twice.
pub proof fn lemma_value_well_formed(s: Seq<u8>)
    ensures
        parse_value(s) matches Ok((value, _)) ==> well_formed(value),
    decreases s.len(), 2nat,
{
    if s.len() > 0 {
        lemma_list_well_formed(s);
        lemma_dict_well_formed(s);
    }
}

/// A list that is read is well formed.
pub proof fn lemma_list_well_formed(s: Seq<u8>)
    ensures
        parse_list(s) matches Ok((items, _)) ==> well_formed(Value::List(items)),
    decreases s.len(), 1nat,
{
    if s.len() > 0 {
        lemma_list_items_well_formed(s.skip(1));
        if let Ok((items, _)) = parse_list(s) {
            lemma_well_formed_list(items);
        }
    }
}

/// Every item that is read up to the closing `e` of a list is well formed.
pub proof fn lemma_list_items_well_formed(s: Seq<u8>)
    ensures
        parse_list_items(s) matches Ok((items, _)) ==> all_well_formed(items),
    decreases s.len(), 3nat,
{
    if s.len() > 0 && s[0] != END {
        lemma_value_well_formed(s);
        if let Ok((value, after)) = parse_value(s) {
            if after.len() < s.len() {
                lemma_list_items_well_formed(after);
                if let Ok((items, _)) = parse_list_items(after) {
                    let all = seq![value] + items;
                    assert forall|i: int| 0 <= i < all.len() implies well_formed(
                        #[trigger] all[i],
                    ) by {
                        if i > 0 {
                            assert(all[i] == items[i - 1]);
                        } else {
                            assert(all[i] == value);
                        }
                    }
                }
            }
        }
    }
}

/// A dictionary that is read is well formed: no key occurs twice in it,
/// and its values are well formed.
pub proof fn lemma_dict_well_formed(s: Seq<u8>)
    ensures
        parse_dict(s) matches Ok((entries, _)) ==> well_formed(Value::Dict(entries)),
    decreases s.len(), 1nat,
{
    if s.len() > 0 {
        lemma_dict_pairs_well_formed(s.skip(1));
        if let Ok((pairs, _)) = parse_dict_pairs(s.skip(1)) {
            lemma_dict_of_well_formed(pairs);
            lemma_well_formed_dict(dict_of(pairs));
        }
    }
}

/// The value of every pair that is read up to the closing `e` of a
/// dictionary is well formed.
pub proof fn lemma_dict_pairs_well_formed(s: Seq<u8>)
    ensures
        parse_dict_pairs(s) matches Ok((pairs, _)) ==> values_well_formed(pairs),
    decreases s.len(), 3nat,
{
    if s.len() > 0 && s[0] != END {
        lemma_string_consumes(s);
        if let Ok((key, after_key)) = parse_string(s) {
            lemma_value_well_formed(after_key);
            if let Ok((value, after)) = parse_value(after_key) {
                if after.len() < s.len() {
                    lemma_dict_pairs_well_formed(after);
                    if let Ok((pairs, _)) = parse_dict_pairs(after) {
                        let all = seq![(key, value)] + pairs;
                        assert forall|i: int| 0 <= i < all.len() implies well_formed(
                            (#[trigger] all[i]).1,
                        ) by {
                            if i > 0 {
                                assert(all[i] == pairs[i - 1]);
                            } else {
                                assert(all[i] == (key, value));
                            }
                        }
                    }
                }
            }
        }
    }
}

/// The last occurrence wins: under each key the dictionary that a run of
/// pairs builds holds the value of the last pair with that key, and a key
/// that no pair has is not found.
pub proof fn lemma_last_occurrence_wins(pairs: Seq<(Seq<u8>, Value)>, key: Seq<u8>)
    ensures
        dict_get(dict_of(pairs), key) == match dict_keys(pairs).index_of_last(key) {
            Some(i) => Some(pairs[i].1),
            None => None,
        },
    decreases pairs.len(),
{
    let keys = dict_keys(pairs);
    keys.index_of_last_ensures(key);
    if pairs.len() == 0 {
        lemma_index_of_first(dict_keys(dict_of(pairs)), key);
    } else {
        let last = pairs.len() - 1;
        let front = pairs.drop_last();
        let front_keys = dict_keys(front);
        assert(front_keys =~= keys.drop_last());
        lemma_last_occurrence_wins(front, key);
        lemma_get_after_insert(dict_of(front), pairs[last].0, pairs[last].1, key);
        front_keys.index_of_last_ensures(key);
        if pairs[last].0 == key {
            assert(keys[last] == key);
            assert(keys.contains(key));
        } else {
            assert(keys[last] != key);
            match front_keys.index_of_last(key) {
                Some(j) => {
                    assert(keys[j] == key);
                    assert(keys.contains(key));
                    let i = keys.index_of_last(key).unwrap();
                    assert(i != last);
                    assert(front_keys[i] == key);
                    assert(i == j);
                    assert(front[j] == pairs[j]);
                },
                None => {
                    if keys.contains(key) {
                        let i = keys.index_of_last(key).unwrap();
                        assert(i != last);
                        assert(front_keys[i] == key);
                        assert(front_keys.contains(key));
                    }
                },
            }
        }
    }
}

} // verus!
