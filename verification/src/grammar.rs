//! The bencode grammar: how a value is written as bytes, and which value
//! a run of bytes denotes.
//!
//! Writing is canonical. Reading is more generous: a numeral may have
//! leading zeros, an integer may carry a plus sign, and the keys of a
//! dictionary may come in any order and more than once, the last binding
//! of a key being the one that counts. A negative zero is not accepted,
//! since no integer would give it back.

use vstd::prelude::*;
use crate::decimal::{decimal, decimal_value, leading_digits};
use crate::error::Error;
use crate::model::{dict_of, Bencode, Entries};

verus! {

/// How an integer is written: its shortest decimal numeral, with a minus
/// sign in front if it is negative.
pub open spec fn int_text(i: int) -> Seq<u8> {
    if i < 0 {
        seq![45u8] + decimal((-i) as nat)
    } else {
        decimal(i as nat)
    }
}

/// How a byte string is written: its length, a colon, its bytes.
pub open spec fn encode_byte_string(b: Seq<u8>) -> Seq<u8> {
    decimal(b.len()) + seq![58u8] + b
}

/// How a value is written. Lists and dictionaries write their members in
/// the order in which the model holds them.
pub open spec fn encode_spec(v: Bencode) -> Seq<u8>
    decreases v,
{
    match v {
        Bencode::Integer(i) => seq![105u8] + int_text(i) + seq![101u8],
        Bencode::ByteString(b) => encode_byte_string(b),
        Bencode::List(items) => seq![108u8] + encode_items(items) + seq![101u8],
        Bencode::Dictionary(es) => seq![100u8] + encode_entries(es) + seq![101u8],
    }
}

/// The items of a list, written one after the other.
pub open spec fn encode_items(items: Seq<Bencode>) -> Seq<u8>
    decreases items,
{
    if items.len() == 0 {
        Seq::empty()
    } else {
        encode_items(items.drop_last()) + encode_spec(items.last())
    }
}

/// The entries of a dictionary, written one after the other, each as its
/// key and then its value.
pub open spec fn encode_entries(es: Entries) -> Seq<u8>
    decreases es,
{
    if es.len() == 0 {
        Seq::empty()
    } else {
        encode_entries(es.drop_last()) + encode_byte_string(es.last().0) + encode_spec(
            es.last().1,
        )
    }
}

/// Reads a byte string at the front of `s`: digits up to a colon, then as
/// many bytes as the digits say. Gives the string and how many bytes of
/// `s` it took.
pub open spec fn parse_byte_string(s: Seq<u8>) -> Option<(Seq<u8>, int)> {
    let n = leading_digits(s) as int;
    let len = decimal_value(s.take(n)) as int;
    if n == 0 || n >= s.len() || s[n] != 58u8 {
        None
    } else if n + 1 + len > s.len() {
        None
    } else {
        Some((s.subrange(n + 1, n + 1 + len), n + 1 + len))
    }
}

/// Reads an integer at the front of `s`: the letter `i`, an optional sign,
/// one digit or more, the letter `e`. Gives the integer and how many bytes
/// of `s` it took.
pub open spec fn parse_integer(s: Seq<u8>) -> Option<(int, int)> {
    if s.len() < 2 || s[0] != 105u8 {
        None
    } else {
        let signed = s[1] == 45u8 || s[1] == 43u8;
        let negative = s[1] == 45u8;
        let start: int = if signed { 2 } else { 1 };
        let n = leading_digits(s.skip(start)) as int;
        let magnitude = decimal_value(s.skip(start).take(n)) as int;
        let value = if negative { -magnitude } else { magnitude };
        if n == 0 || start + n >= s.len() || s[start + n] != 101u8 {
            None
        } else if negative && magnitude == 0 {
            None
        } else if value < i64::MIN || value > i64::MAX {
            None
        } else {
            Some((value, start + n + 1))
        }
    }
}

/// Reads one value at the front of `s`. Gives the value and how many bytes
/// of `s` it took, or nothing where `s` does not begin with a value.
pub open spec fn parse_value(s: Seq<u8>) -> Option<(Bencode, int)>
    decreases s.len(), 0nat,
{
    if s.len() == 0 {
        None
    } else if s[0] == 105u8 {
        match parse_integer(s) {
            Some((i, n)) => Some((Bencode::Integer(i), n)),
            None => None,
        }
    } else if s[0] == 108u8 {
        match parse_items(s.skip(1)) {
            Some((items, n)) => Some((Bencode::List(items), n + 1)),
            None => None,
        }
    } else if s[0] == 100u8 {
        match parse_entries(s.skip(1)) {
            Some((pairs, n)) => Some((Bencode::Dictionary(dict_of(pairs)), n + 1)),
            None => None,
        }
    } else {
        match parse_byte_string(s) {
            Some((b, n)) => Some((Bencode::ByteString(b), n)),
            None => None,
        }
    }
}

/// Reads the items of a list up to and with the `e` that ends it.
pub open spec fn parse_items(s: Seq<u8>) -> Option<(Seq<Bencode>, int)>
    decreases s.len(), 1nat,
{
    if s.len() == 0 {
        None
    } else if s[0] == 101u8 {
        Some((Seq::empty(), 1))
    } else {
        match parse_value(s) {
            Some((v, n)) => if 0 < n <= s.len() {
                match parse_items(s.skip(n)) {
                    Some((rest, m)) => Some((seq![v] + rest, n + m)),
                    None => None,
                }
            } else {
                None
            },
            None => None,
        }
    }
}

/// Reads the entries of a dictionary, in the order in which they are
/// written, up to and with the `e` that ends it. Each key is a byte string.
pub open spec fn parse_entries(s: Seq<u8>) -> Option<(Entries, int)>
    decreases s.len(), 1nat,
{
    if s.len() == 0 {
        None
    } else if s[0] == 101u8 {
        Some((Seq::empty(), 1))
    } else {
        match parse_byte_string(s) {
            Some((k, n)) => if 0 < n < s.len() {
                match parse_value(s.skip(n)) {
                    Some((v, m)) => if 0 < m <= s.len() - n {
                        match parse_entries(s.skip(n + m)) {
                            Some((rest, r)) => Some((seq![(k, v)] + rest, n + m + r)),
                            None => None,
                        }
                    } else {
                        None
                    },
                    None => None,
                }
            } else {
                None
            },
            None => None,
        }
    }
}

/// The value that `s` denotes: `s` has to be one value from its first byte
/// to its last.
pub open spec fn decode_spec(s: Seq<u8>) -> Result<Bencode, Error> {
    match parse_value(s) {
        Some((v, n)) => if n == s.len() {
            Ok(v)
        } else {
            Err(Error::MalformedInput)
        },
        None => Err(Error::MalformedInput),
    }
}

} // verus!
