//! Encoding: from a bencode value to its canonical bytes.

use vstd::prelude::*;
use crate::decimal::push_decimal;
use crate::error::Error;
use crate::grammar::{
    decode_spec, encode_byte_string, encode_entries, encode_items, encode_spec, int_text,
};
use crate::model::{Bencode, Entries};
use crate::roundtrip::lemma_decode_encode;
use crate::value::{values_view, BencodeValue};

verus! {

/// Appends the bytes of `bytes` to `out`.
pub fn push_bytes(out: &mut Vec<u8>, bytes: &[u8])
    ensures
        final(out)@ == old(out)@ + bytes@,
{
    out.extend_from_slice(bytes);
    assert(out@ =~= old(out)@ + bytes@);
}

/// Appends a byte string as it is written: its length, a colon, its bytes.
pub fn push_byte_string(out: &mut Vec<u8>, bytes: &[u8])
    ensures
        final(out)@ == old(out)@ + encode_byte_string(bytes@),
{
    push_decimal(out, bytes.len() as u64);
    out.push(58);
    push_bytes(out, bytes);
    assert(out@ =~= old(out)@ + encode_byte_string(bytes@));
}

/// Appends an integer as it is written between its `i` and its `e`.
pub fn push_int_text(out: &mut Vec<u8>, i: i64)
    ensures
        final(out)@ == old(out)@ + int_text(i as int),
{
    if i < 0 {
        out.push(45);
        let magnitude: u64 = (0 - (i as i128)) as u64;
        push_decimal(out, magnitude);
        assert(out@ =~= old(out)@ + int_text(i as int));
    } else {
        push_decimal(out, i as u64);
    }
}

/// Appends `v` as it is written.
fn write_value(v: &BencodeValue, out: &mut Vec<u8>)
    ensures
        final(out)@ == old(out)@ + encode_spec(v@),
        v@.well_formed(),
    decreases v,
{
    match v {
        BencodeValue::Integer(i) => {
            out.push(105);
            push_int_text(out, *i);
            out.push(101);
            assert(out@ =~= old(out)@ + encode_spec(v@));
        },
        BencodeValue::ByteString(b) => {
            push_byte_string(out, b.as_slice());
        },
        BencodeValue::List(items) => {
            let ghost model = values_view(items@);
            assert(v@->List_0 =~= model);
            out.push(108);
            let mut i: usize = 0;
            assert(model.take(0) =~= Seq::<Bencode>::empty());
            while i < items.len()
                invariant
                    i <= items.len(),
                    v is List,
                    v->List_0 == *items,
                    model == values_view(items@),
                    out@ == old(out)@ + seq![108u8] + encode_items(model.take(i as int)),
                    forall|j: int| 0 <= j < i ==> (#[trigger] model[j]).well_formed(),
                decreases items.len() - i,
            {
                let ghost before = out@;
                write_value(&items[i], out);
                proof {
                    let longer = model.take(i + 1);
                    assert(longer.drop_last() =~= model.take(i as int));
                    assert(longer.last() == items@[i as int]@);
                    assert(out@ =~= old(out)@ + seq![108u8] + encode_items(longer));
                }
                i += 1;
            }
            assert(model.take(items.len() as int) =~= model);
            out.push(101);
            assert(out@ =~= old(out)@ + encode_spec(v@));
        },
        BencodeValue::Dictionary(dict) => {
            let ghost model = dict@;
            out.push(100);
            let n: usize = dict.len();
            let mut i: usize = 0;
            assert(model.take(0) =~= Entries::empty());
            while i < n
                invariant
                    i <= n,
                    n == model.len(),
                    v is Dictionary,
                    v->Dictionary_0 == *dict,
                    model == dict@,
                    out@ == old(out)@ + seq![100u8] + encode_entries(model.take(i as int)),
                    forall|j: int| 0 <= j < i ==> (#[trigger] model[j]).1.well_formed(),
                decreases n - i,
            {
                push_byte_string(out, dict.key_at(i).as_slice());
                write_value(dict.value_at(i), out);
                proof {
                    let longer = model.take(i + 1);
                    assert(longer.drop_last() =~= model.take(i as int));
                    assert(longer.last() == model[i as int]);
                    assert(out@ =~= old(out)@ + seq![100u8] + encode_entries(longer));
                }
                i += 1;
            }
            assert(model.take(n as int) =~= model);
            out.push(101);
            assert(out@ =~= old(out)@ + encode_spec(v@));
        },
    }
}

/// Encodes `v`. Dictionaries are written with their keys in ascending
/// byte-lexicographic order, and decoding the result gives `v` back.
pub fn encode(v: &BencodeValue) -> (out: Vec<u8>)
    ensures
        out@ == encode_spec(v@),
        v@.well_formed(),
        decode_spec(out@) == Ok::<Bencode, Error>(v@),
{
    let mut out: Vec<u8> = Vec::new();
    write_value(v, &mut out);
    proof {
        assert(out@ =~= encode_spec(v@));
        lemma_decode_encode(v@);
    }
    out
}

} // verus!
