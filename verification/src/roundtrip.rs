//! What holds between writing and reading: a well-formed value that is
//! written and read again is the same value, and what reading gives is
//! always well-formed.

use vstd::prelude::*;
use crate::decimal::{
    decimal, is_digit, lemma_decimal_digits, lemma_decimal_value, lemma_leading_digits,
    lemma_leading_digits_of,
};
use crate::error::Error;
use crate::grammar::{
    decode_spec, encode_byte_string, encode_entries, encode_items, encode_spec, int_text,
    parse_byte_string, parse_entries, parse_integer, parse_items, parse_value,
};
use crate::model::{
    lemma_dict_of_ascending, lemma_dict_of_ascending_is_identity, lemma_dict_of_values, Bencode,
    Entries,
};

verus! {

/// The items of a non-empty list are written as the first item followed by
/// the others.
pub proof fn lemma_encode_items_front(items: Seq<Bencode>)
    requires
        items.len() > 0,
    ensures
        encode_items(items) == encode_spec(items[0]) + encode_items(items.drop_first()),
    decreases items.len(),
{
    if items.len() == 1 {
        assert(items.drop_last() =~= Seq::<Bencode>::empty());
        assert(items.drop_first() =~= Seq::<Bencode>::empty());
        assert(encode_items(items) =~= encode_spec(items[0]) + encode_items(items.drop_first()));
    } else {
        let front = items.drop_last();
        lemma_encode_items_front(front);
        assert(front.drop_first() =~= items.drop_first().drop_last());
        assert(items.drop_first().last() == items.last());
        assert(encode_items(items) =~= encode_spec(items[0]) + encode_items(items.drop_first()));
    }
}

/// The entries of a non-empty dictionary are written as the first entry
/// followed by the others.
pub proof fn lemma_encode_entries_front(es: Entries)
    requires
        es.len() > 0,
    ensures
        encode_entries(es) == encode_byte_string(es[0].0) + encode_spec(es[0].1)
            + encode_entries(es.drop_first()),
    decreases es.len(),
{
    if es.len() == 1 {
        assert(es.drop_last() =~= Entries::empty());
        assert(es.drop_first() =~= Entries::empty());
        assert(encode_entries(es) =~= encode_byte_string(es[0].0) + encode_spec(es[0].1)
            + encode_entries(es.drop_first()));
    } else {
        let front = es.drop_last();
        lemma_encode_entries_front(front);
        assert(front.drop_first() =~= es.drop_first().drop_last());
        assert(es.drop_first().last() == es.last());
        assert(encode_entries(es) =~= encode_byte_string(es[0].0) + encode_spec(es[0].1)
            + encode_entries(es.drop_first()));
    }
}

/// What is written for a value begins with `i`, `l`, `d` or a digit, and
/// so never with the `e` that ends a list or a dictionary.
pub proof fn lemma_encode_first_byte(v: Bencode)
    ensures
        encode_spec(v).len() >= 2,
        encode_spec(v)[0] != 101u8,
        v is Integer <==> encode_spec(v)[0] == 105u8,
        v is List <==> encode_spec(v)[0] == 108u8,
        v is Dictionary <==> encode_spec(v)[0] == 100u8,
        v is ByteString <==> is_digit(encode_spec(v)[0]),
{
    match v {
        Bencode::ByteString(b) => {
            lemma_decimal_digits(b.len());
            assert(encode_spec(v)[0] == decimal(b.len())[0]);
        },
        _ => {},
    }
}

/// A byte string that was written is read back, whatever follows it.
pub proof fn lemma_parse_byte_string_encoded(b: Seq<u8>, rest: Seq<u8>)
    ensures
        parse_byte_string(encode_byte_string(b) + rest) == Some(
            (b, encode_byte_string(b).len() as int),
        ),
{
    let digits = decimal(b.len());
    let s = encode_byte_string(b) + rest;
    let tail = seq![58u8] + b + rest;
    assert(s =~= digits + tail);
    lemma_decimal_digits(b.len());
    lemma_decimal_value(b.len());
    lemma_leading_digits_of(digits, tail);
    let n: int = digits.len() as int;
    assert(s.take(n) =~= digits);
    assert(s[n] == 58u8);
    assert(s.subrange(n + 1, n + 1 + b.len()) =~= b);
}

/// An integer that was written is read back, whatever follows it.
pub proof fn lemma_parse_integer_encoded(i: int, rest: Seq<u8>)
    requires
        i64::MIN <= i <= i64::MAX,
    ensures
        parse_integer(seq![105u8] + int_text(i) + seq![101u8] + rest) == Some(
            (i, (int_text(i).len() + 2) as int),
        ),
{
    let s = seq![105u8] + int_text(i) + seq![101u8] + rest;
    let tail = seq![101u8] + rest;
    if i < 0 {
        let digits = decimal((-i) as nat);
        lemma_decimal_digits((-i) as nat);
        lemma_decimal_value((-i) as nat);
        assert(s[1] == 45u8);
        assert(s.skip(2) =~= digits + tail);
        lemma_leading_digits_of(digits, tail);
        assert(s.skip(2).take(digits.len() as int) =~= digits);
        assert(s[2 + digits.len() as int] == 101u8);
    } else {
        let digits = decimal(i as nat);
        lemma_decimal_digits(i as nat);
        lemma_decimal_value(i as nat);
        assert(s[1] == digits[0]);
        assert(is_digit(digits[0]));
        assert(s.skip(1) =~= digits + tail);
        lemma_leading_digits_of(digits, tail);
        assert(s.skip(1).take(digits.len() as int) =~= digits);
        assert(s[1 + digits.len() as int] == 101u8);
    }
}

/// A well-formed value that was written is read back, whatever follows it.
pub proof fn lemma_parse_encoded(v: Bencode, rest: Seq<u8>)
    requires
        v.well_formed(),
    ensures
        parse_value(encode_spec(v) + rest) == Some((v, encode_spec(v).len() as int)),
    decreases v,
{
    let s = encode_spec(v) + rest;
    lemma_encode_first_byte(v);
    assert(s[0] == encode_spec(v)[0]);
    match v {
        Bencode::Integer(i) => {
            lemma_parse_integer_encoded(i, rest);
            assert(s =~= seq![105u8] + int_text(i) + seq![101u8] + rest);
        },
        Bencode::ByteString(b) => {
            lemma_parse_byte_string_encoded(b, rest);
        },
        Bencode::List(items) => {
            lemma_parse_items_encoded(items, rest);
            assert(s.skip(1) =~= encode_items(items) + seq![101u8] + rest);
        },
        Bencode::Dictionary(es) => {
            lemma_parse_entries_encoded(es, rest);
            assert(s.skip(1) =~= encode_entries(es) + seq![101u8] + rest);
            lemma_dict_of_ascending_is_identity(es);
        },
    }
}

/// The items of a list that were written, with the `e` behind them, are
/// read back.
pub proof fn lemma_parse_items_encoded(items: Seq<Bencode>, rest: Seq<u8>)
    requires
        forall|i: int| 0 <= i < items.len() ==> (#[trigger] items[i]).well_formed(),
    ensures
        parse_items(encode_items(items) + seq![101u8] + rest) == Some(
            (items, (encode_items(items).len() + 1) as int),
        ),
    decreases items,
{
    let s = encode_items(items) + seq![101u8] + rest;
    if items.len() == 0 {
        assert(s[0] == 101u8);
    } else {
        let head = items[0];
        let others = items.drop_first();
        let after = encode_items(others) + seq![101u8] + rest;
        lemma_encode_items_front(items);
        lemma_encode_first_byte(head);
        assert(s =~= encode_spec(head) + after);
        assert(s[0] == encode_spec(head)[0]);
        lemma_parse_encoded(head, after);
        assert(s.skip(encode_spec(head).len() as int) =~= after);
        assert forall|i: int| 0 <= i < others.len() implies (
        #[trigger] others[i]).well_formed() by {
            assert(others[i] == items[i + 1]);
        }
        lemma_parse_items_encoded(others, rest);
        assert(seq![head] + others =~= items);
    }
}

/// The entries of a dictionary that were written, with the `e` behind
/// them, are read back in the order in which they were written.
pub proof fn lemma_parse_entries_encoded(es: Entries, rest: Seq<u8>)
    requires
        forall|i: int| 0 <= i < es.len() ==> (#[trigger] es[i]).1.well_formed(),
    ensures
        parse_entries(encode_entries(es) + seq![101u8] + rest) == Some(
            (es, (encode_entries(es).len() + 1) as int),
        ),
    decreases es,
{
    let s = encode_entries(es) + seq![101u8] + rest;
    if es.len() == 0 {
        assert(s[0] == 101u8);
    } else {
        let key = es[0].0;
        let value = es[0].1;
        let others = es.drop_first();
        let after = encode_entries(others) + seq![101u8] + rest;
        let after_key = encode_spec(value) + after;
        lemma_encode_entries_front(es);
        lemma_encode_first_byte(value);
        lemma_decimal_digits(key.len());
        assert(s =~= encode_byte_string(key) + after_key);
        assert(s[0] == decimal(key.len())[0]);
        lemma_parse_byte_string_encoded(key, after_key);
        let n: int = encode_byte_string(key).len() as int;
        assert(s.skip(n) =~= after_key);
        lemma_parse_encoded(value, after);
        let m: int = encode_spec(value).len() as int;
        assert(s.skip(n + m) =~= after);
        assert forall|i: int| 0 <= i < others.len() implies (
        #[trigger] others[i]).1.well_formed() by {
            assert(others[i] == es[i + 1]);
        }
        lemma_parse_entries_encoded(others, rest);
        assert(seq![(key, value)] + others =~= es);
    }
}

/// Decoding what a well-formed value is written as gives that value.
pub proof fn lemma_decode_encode(v: Bencode)
    requires
        v.well_formed(),
    ensures
        decode_spec(encode_spec(v)) == Ok::<Bencode, Error>(v),
{
    lemma_parse_encoded(v, Seq::empty());
    assert(encode_spec(v) + Seq::<u8>::empty() =~= encode_spec(v));
}

/// Bytes that are what some well-formed value is written as decode to a
/// value that is written as those same bytes.
pub proof fn lemma_encode_decode(b: Seq<u8>, v: Bencode)
    requires
        v.well_formed(),
        b == encode_spec(v),
    ensures
        decode_spec(b) matches Ok(w) && encode_spec(w) == b,
{
    lemma_decode_encode(v);
}

/// What reading gives is well-formed, and reading takes at least one byte
/// and no more than there are.
pub proof fn lemma_parse_well_formed(s: Seq<u8>)
    ensures
        parse_value(s) matches Some((v, n)) ==> v.well_formed() && 0 < n <= s.len(),
    decreases s.len(), 0nat,
{
    if s.len() > 0 {
        if s[0] == 105u8 {
            if parse_integer(s) is Some {
                let start: int = if s[1] == 45u8 || s[1] == 43u8 {
                    2
                } else {
                    1
                };
                lemma_leading_digits(s.skip(start));
            }
        } else if s[0] == 108u8 {
            lemma_parse_items_well_formed(s.skip(1));
        } else if s[0] == 100u8 {
            lemma_parse_entries_well_formed(s.skip(1));
            match parse_entries(s.skip(1)) {
                Some((pairs, n)) => {
                    lemma_dict_of_ascending(pairs);
                    lemma_dict_of_values(pairs);
                },
                None => {},
            }
        } else {
            lemma_leading_digits(s);
        }
    }
}

/// The items that reading a list gives are well-formed.
pub proof fn lemma_parse_items_well_formed(s: Seq<u8>)
    ensures
        parse_items(s) matches Some((items, n)) ==> 0 < n <= s.len() && forall|i: int|
            0 <= i < items.len() ==> (#[trigger] items[i]).well_formed(),
    decreases s.len(), 1nat,
{
    if s.len() > 0 && s[0] != 101u8 {
        lemma_parse_well_formed(s);
        match parse_value(s) {
            Some((v, n)) => {
                if 0 < n <= s.len() {
                    lemma_parse_items_well_formed(s.skip(n));
                    match parse_items(s.skip(n)) {
                        Some((rest, m)) => {
                            let items = seq![v] + rest;
                            assert forall|i: int| 0 <= i < items.len() implies (
                            #[trigger] items[i]).well_formed() by {
                                if i > 0 {
                                    assert(items[i] == rest[i - 1]);
                                }
                            }
                        },
                        None => {},
                    }
                }
            },
            None => {},
        }
    }
}

/// The values of the entries that reading a dictionary gives are
/// well-formed.
pub proof fn lemma_parse_entries_well_formed(s: Seq<u8>)
    ensures
        parse_entries(s) matches Some((pairs, n)) ==> 0 < n <= s.len() && forall|i: int|
            0 <= i < pairs.len() ==> (#[trigger] pairs[i]).1.well_formed(),
    decreases s.len(), 1nat,
{
    if s.len() > 0 && s[0] != 101u8 {
        match parse_byte_string(s) {
            Some((k, n)) => {
                if 0 < n < s.len() {
                    lemma_parse_well_formed(s.skip(n));
                    match parse_value(s.skip(n)) {
                        Some((v, m)) => {
                            if 0 < m <= s.len() - n {
                                lemma_parse_entries_well_formed(s.skip(n + m));
                                match parse_entries(s.skip(n + m)) {
                                    Some((rest, r)) => {
                                        let pairs = seq![(k, v)] + rest;
                                        assert forall|i: int| 0 <= i < pairs.len() implies (
                                        #[trigger] pairs[i]).1.well_formed() by {
                                            if i > 0 {
                                                assert(pairs[i] == rest[i - 1]);
                                            }
                                        }
                                    },
                                    None => {},
                                }
                            }
                        },
                        None => {},
                    }
                }
            },
            None => {},
        }
    }
}

} // verus!
