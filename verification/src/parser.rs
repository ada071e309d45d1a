//! Decoding: from bytes to a bencode value.

use vstd::prelude::*;
use vstd::slice::{slice_subrange, slice_to_vec};
use vstd::string::StringSliceAdditionalSpecFns;
use crate::decimal::{all_digits, decimal_value, is_digit, leading_digits, lemma_leading_digits_of};
use crate::error::Error;
use crate::grammar::{
    decode_spec, parse_byte_string, parse_entries, parse_integer, parse_items, parse_value,
};
use crate::model::{dict_of, Bencode, Entries};
use crate::roundtrip::lemma_parse_well_formed;
use crate::value::{values_view, BencodeDict, BencodeValue};

verus! {

/// A run of digits that was read, and the number it denotes where that
/// number is at most `limit`.
struct Numeral {
    /// The position just behind the last digit.
    end: usize,
    /// The number, or nothing where it is above the limit.
    value: Option<u128>,
}

/// Reads the digits that stand at `pos`.
fn read_digits(input: &[u8], pos: usize, limit: u128) -> (r: Numeral)
    requires
        pos <= input.len(),
        limit <= 0xFFFF_FFFF_FFFF_FFFF_FFFF,
    ensures
        r.end == pos + leading_digits(input@.skip(pos as int)),
        r.end <= input.len(),
        match r.value {
            Some(v) => v == decimal_value(input@.subrange(pos as int, r.end as int)) && v <= limit,
            None => decimal_value(input@.subrange(pos as int, r.end as int)) > limit,
        },
{
    let ghost s = input@.skip(pos as int);
    let mut i: usize = pos;
    let mut value: Option<u128> = Some(0);
    assert(s.take(0) =~= Seq::<u8>::empty());
    while i < input.len() && input[i] >= 48 && input[i] <= 57
        invariant
            pos <= i <= input.len(),
            s == input@.skip(pos as int),
            limit <= 0xFFFF_FFFF_FFFF_FFFF_FFFF,
            all_digits(s.take(i - pos)),
            match value {
                Some(v) => v == decimal_value(s.take(i - pos)) && v <= limit,
                None => decimal_value(s.take(i - pos)) > limit,
            },
        decreases input.len() - i,
    {
        let d: u128 = (input[i] - 48) as u128;
        proof {
            let longer = s.take(i - pos + 1);
            assert(longer.drop_last() =~= s.take(i - pos));
            assert(longer.last() == input@[i as int]);
            assert forall|j: int| 0 <= j < longer.len() implies is_digit(#[trigger] longer[j]) by {
                if j < i - pos {
                    assert(longer[j] == s.take(i - pos)[j]);
                }
            }
        }
        value = match value {
            Some(v) => {
                let next: u128 = v * 10 + d;
                if next <= limit {
                    Some(next)
                } else {
                    None
                }
            },
            None => None,
        };
        i += 1;
    }
    proof {
        let digits = s.take(i - pos);
        let rest = s.skip(i - pos);
        assert(digits + rest =~= s);
        if rest.len() > 0 {
            assert(rest[0] == input@[i as int]);
        }
        lemma_leading_digits_of(digits, rest);
        assert(input@.subrange(pos as int, i as int) =~= digits);
    }
    Numeral { end: i, value }
}

/// Reads a byte string at `pos`. Gives the string and the position behind
/// it.
fn read_byte_string(input: &[u8], pos: usize) -> (r: Option<(Vec<u8>, usize)>)
    requires
        pos <= input.len(),
    ensures
        match r {
            Some((b, end)) => pos < end <= input.len() && parse_byte_string(
                input@.skip(pos as int),
            ) == Some((b@, end - pos)),
            None => parse_byte_string(input@.skip(pos as int)) is None,
        },
{
    let ghost s = input@.skip(pos as int);
    let numeral = read_digits(input, pos, input.len() as u128);
    let colon: usize = numeral.end;
    proof {
        assert(s.take(colon - pos) =~= input@.subrange(pos as int, colon as int));
    }
    if colon == pos || colon >= input.len() || input[colon] != 58 {
        return None;
    }
    match numeral.value {
        None => None,
        Some(len) => {
            let len: usize = len as usize;
            if len > input.len() - colon - 1 {
                return None;
            }
            let start: usize = colon + 1;
            let bytes = slice_to_vec(slice_subrange(input, start, start + len));
            assert(bytes@ =~= s.subrange(start - pos, start - pos + len));
            Some((bytes, start + len))
        },
    }
}

/// Reads an integer at `pos`. Gives the integer and the position behind
/// its closing `e`.
fn read_integer(input: &[u8], pos: usize) -> (r: Option<(i64, usize)>)
    requires
        pos <= input.len(),
    ensures
        match r {
            Some((i, end)) => pos < end <= input.len() && parse_integer(input@.skip(pos as int))
                == Some((i as int, end - pos)),
            None => parse_integer(input@.skip(pos as int)) is None,
        },
{
    let ghost s = input@.skip(pos as int);
    if input.len() - pos < 2 || input[pos] != 105 {
        return None;
    }
    let sign: u8 = input[pos + 1];
    let negative: bool = sign == 45;
    let start: usize = if sign == 45 || sign == 43 {
        pos + 2
    } else {
        pos + 1
    };
    assert(s.skip(start - pos) =~= input@.skip(start as int));
    let numeral = read_digits(input, start, 0x8000_0000_0000_0000);
    let end: usize = numeral.end;
    proof {
        assert(s.skip(start - pos).take(end - start) =~= input@.subrange(
            start as int,
            end as int,
        ));
    }
    if end == start || end >= input.len() || input[end] != 101 {
        return None;
    }
    match numeral.value {
        None => None,
        Some(magnitude) => {
            if negative {
                if magnitude == 0 {
                    None
                } else {
                    let value: i64 = (0 - (magnitude as i128)) as i64;
                    Some((value, end + 1))
                }
            } else if magnitude > 0x7FFF_FFFF_FFFF_FFFF {
                None
            } else {
                Some((magnitude as i64, end + 1))
            }
        },
    }
}

/// Reads one value at `pos`. Gives the value and the position behind it.
fn read_value(input: &[u8], pos: usize) -> (r: Option<(BencodeValue, usize)>)
    requires
        pos <= input.len(),
    ensures
        match r {
            Some((v, end)) => pos < end <= input.len() && parse_value(input@.skip(pos as int))
                == Some((v@, end - pos)),
            None => parse_value(input@.skip(pos as int)) is None,
        },
    decreases input.len() - pos, 0nat,
{
    let ghost s = input@.skip(pos as int);
    if pos >= input.len() {
        return None;
    }
    let first: u8 = input[pos];
    assert(s[0] == first);
    assert(s.skip(1) =~= input@.skip(pos + 1));
    if first == 105 {
        match read_integer(input, pos) {
            Some((i, end)) => Some((BencodeValue::Integer(i), end)),
            None => None,
        }
    } else if first == 108 {
        match read_items(input, pos + 1) {
            Some((items, end)) => {
                let v = BencodeValue::List(items);
                assert(v@ =~= Bencode::List(values_view(items@))) by {
                    assert(v@->List_0 =~= values_view(items@));
                }
                Some((v, end))
            },
            None => None,
        }
    } else if first == 100 {
        match read_entries(input, pos + 1) {
            Some((dict, end)) => Some((BencodeValue::Dictionary(dict), end)),
            None => None,
        }
    } else {
        match read_byte_string(input, pos) {
            Some((b, end)) => Some((BencodeValue::ByteString(b), end)),
            None => None,
        }
    }
}

/// What reading the items of a list from `s` gives, where `done` have been
/// read already and took `taken` bytes, and `s` is what is left.
spec fn items_after(done: Seq<Bencode>, taken: int, s: Seq<u8>) -> Option<(Seq<Bencode>, int)> {
    match parse_items(s) {
        Some((rest, m)) => Some((done + rest, taken + m)),
        None => None,
    }
}

/// Reads the items of a list from `start` up to and with the closing `e`.
fn read_items(input: &[u8], start: usize) -> (r: Option<(Vec<BencodeValue>, usize)>)
    requires
        start <= input.len(),
    ensures
        match r {
            Some((items, end)) => start < end <= input.len() && parse_items(
                input@.skip(start as int),
            ) == Some((values_view(items@), end - start)),
            None => parse_items(input@.skip(start as int)) is None,
        },
    decreases input.len() - start, 1nat,
{
    let mut items: Vec<BencodeValue> = Vec::new();
    let mut cur: usize = start;
    assert(values_view(items@) + parse_items(input@.skip(cur as int)).unwrap().0
        =~= parse_items(input@.skip(cur as int)).unwrap().0);
    loop
        invariant
            start <= cur <= input.len(),
            parse_items(input@.skip(start as int)) == items_after(
                values_view(items@),
                cur - start,
                input@.skip(cur as int),
            ),
        decreases input.len() - cur,
    {
        let ghost s = input@.skip(cur as int);
        if cur >= input.len() {
            return None;
        }
        assert(s[0] == input@[cur as int]);
        if input[cur] == 101 {
            assert(values_view(items@) + Seq::<Bencode>::empty() =~= values_view(items@));
            return Some((items, cur + 1));
        }
        match read_value(input, cur) {
            None => {
                return None;
            },
            Some((v, end)) => {
                proof {
                    assert(s.skip(end - cur) =~= input@.skip(end as int));
                    let done = values_view(items@);
                    let more = values_view(items@.push(v));
                    assert(more =~= done + seq![v@]);
                    match parse_items(input@.skip(end as int)) {
                        Some((rest, m)) => {
                            assert(done + (seq![v@] + rest) =~= more + rest);
                        },
                        None => {},
                    }
                }
                items.push(v);
                cur = end;
            },
        }
    }
}

/// What reading the entries of a dictionary from `s` gives, where `done`
/// have been read already and took `taken` bytes, and `s` is what is left.
spec fn entries_after(done: Entries, taken: int, s: Seq<u8>) -> Option<(Entries, int)> {
    match parse_entries(s) {
        Some((rest, m)) => Some((done + rest, taken + m)),
        None => None,
    }
}

/// Reads the entries of a dictionary from `start` up to and with the
/// closing `e`, and binds them one after the other.
fn read_entries(input: &[u8], start: usize) -> (r: Option<(BencodeDict, usize)>)
    requires
        start <= input.len(),
    ensures
        match r {
            Some((dict, end)) => start < end <= input.len() && exists|pairs: Entries|
                parse_entries(input@.skip(start as int)) == Some((pairs, end - start))
                    && dict@ == dict_of(pairs),
            None => parse_entries(input@.skip(start as int)) is None,
        },
    decreases input.len() - start, 1nat,
{
    let mut dict = BencodeDict::new();
    let ghost mut pairs: Entries = Seq::empty();
    let mut cur: usize = start;
    assert(pairs + parse_entries(input@.skip(cur as int)).unwrap().0 =~= parse_entries(
        input@.skip(cur as int),
    ).unwrap().0);
    loop
        invariant
            start <= cur <= input.len(),
            dict@ == dict_of(pairs),
            parse_entries(input@.skip(start as int)) == entries_after(
                pairs,
                cur - start,
                input@.skip(cur as int),
            ),
        decreases input.len() - cur,
    {
        let ghost s = input@.skip(cur as int);
        if cur >= input.len() {
            return None;
        }
        assert(s[0] == input@[cur as int]);
        if input[cur] == 101 {
            assert(pairs + Entries::empty() =~= pairs);
            return Some((dict, cur + 1));
        }
        let (key, mid) = match read_byte_string(input, cur) {
            None => {
                return None;
            },
            Some(found) => found,
        };
        assert(s.skip(mid - cur) =~= input@.skip(mid as int));
        if mid >= input.len() {
            return None;
        }
        match read_value(input, mid) {
            None => {
                return None;
            },
            Some((v, end)) => {
                proof {
                    assert(s.skip(end - cur) =~= input@.skip(end as int));
                    let more = pairs.push((key@, v@));
                    assert(more.drop_last() =~= pairs);
                    match parse_entries(input@.skip(end as int)) {
                        Some((rest, m)) => {
                            assert(pairs + (seq![(key@, v@)] + rest) =~= more + rest);
                        },
                        None => {},
                    }
                    pairs = more;
                }
                dict.insert(key, v);
                cur = end;
            },
        }
    }
}

/// The model of what decoding gave.
pub open spec fn decoded(r: Result<BencodeValue, Error>) -> Result<Bencode, Error> {
    match r {
        Ok(v) => Ok(v@),
        Err(e) => Err(e),
    }
}

/// Decodes `input`, which has to hold one bencode value and nothing else.
/// Fails with `MalformedInput` otherwise: where a length has no colon, a
/// byte string is longer than what is left, an integer is not a numeral
/// that fits in 64 bits, a list or dictionary has no end, a key is not a
/// byte string, or bytes are left over.
pub fn decode_bytes(input: &[u8]) -> (r: Result<BencodeValue, Error>)
    ensures
        decoded(r) == decode_spec(input@),
        r matches Ok(v) ==> v@.well_formed(),
{
    assert(input@.skip(0) =~= input@);
    proof {
        lemma_parse_well_formed(input@);
    }
    match read_value(input, 0) {
        Some((v, end)) => {
            if end == input.len() {
                Ok(v)
            } else {
                Err(Error::MalformedInput)
            }
        },
        None => Err(Error::MalformedInput),
    }
}

/// Decodes the bytes of `encoded_value` as one bencode value.
pub fn decode(encoded_value: &str) -> (r: Result<BencodeValue, Error>)
    ensures
        decoded(r) == decode_spec(encoded_value.spec_bytes()),
        r matches Ok(v) ==> v@.well_formed(),
{
    decode_bytes(encoded_value.as_bytes())
}

} // verus!
