//! A readable rendering of a bencode value, for diagnostics.
//!
//! Integers are shown in decimal, lists between square brackets, and
//! dictionaries between braces as `"key":value` pairs in key order, the
//! members separated by commas. A byte string is shown as the standard
//! library shows a string with `{:?}`, and has to be valid UTF-8; a key is
//! decoded leniently and shown between plain double quotes.

use vstd::prelude::*;
use vstd::slice::slice_to_vec;
use vstd::string::StringExecFns;
use vstd::utf8::{decode_utf8, valid_utf8};
use crate::encoder::push_int_text;
use crate::error::Error;
use crate::grammar::int_text;
use crate::model::{Bencode, Entries};
use crate::text::{
    ascii_text, debug_quoted, lossy_text, push_ascii, push_char, string_debug, string_from_utf8,
    string_from_utf8_lossy,
};
use crate::value::{values_view, BencodeValue};

verus! {

/// How a value is shown, or nothing where a byte string in it is not valid
/// UTF-8.
pub open spec fn display_text(v: Bencode) -> Option<Seq<char>>
    decreases v,
{
    match v {
        Bencode::Integer(i) => Some(ascii_text(int_text(i))),
        Bencode::ByteString(b) => if valid_utf8(b) {
            Some(debug_quoted(decode_utf8(b)))
        } else {
            None
        },
        Bencode::List(items) => match display_items(items) {
            Some(t) => Some(seq!['['] + t + seq![']']),
            None => None,
        },
        Bencode::Dictionary(es) => match display_entries(es) {
            Some(t) => Some(seq!['{'] + t + seq!['}']),
            None => None,
        },
    }
}

/// The items of a list as they are shown, with a comma between each two.
pub open spec fn display_items(items: Seq<Bencode>) -> Option<Seq<char>>
    decreases items,
{
    if items.len() == 0 {
        Some(Seq::empty())
    } else {
        match (display_items(items.drop_last()), display_text(items.last())) {
            (Some(front), Some(t)) => Some(
                if items.len() == 1 {
                    t
                } else {
                    front + seq![','] + t
                },
            ),
            _ => None,
        }
    }
}

/// How one entry of a dictionary is shown, given how its value is shown.
pub open spec fn display_entry(key: Seq<u8>, value: Seq<char>) -> Seq<char> {
    seq!['"'] + lossy_text(key) + seq!['"', ':'] + value
}

/// The entries of a dictionary as they are shown, in the order in which
/// the dictionary holds them, with a comma between each two.
pub open spec fn display_entries(es: Entries) -> Option<Seq<char>>
    decreases es,
{
    if es.len() == 0 {
        Some(Seq::empty())
    } else {
        match (display_entries(es.drop_last()), display_text(es.last().1)) {
            (Some(front), Some(t)) => Some(
                if es.len() == 1 {
                    display_entry(es.last().0, t)
                } else {
                    front + seq![','] + display_entry(es.last().0, t)
                },
            ),
            _ => None,
        }
    }
}

/// How a value is shown, or `InvalidUtf8` where a byte string in it is not
/// valid UTF-8.
pub open spec fn display_spec(v: Bencode) -> Result<Seq<char>, Error> {
    match display_text(v) {
        Some(t) => Ok(t),
        None => Err(Error::InvalidUtf8),
    }
}

/// Where the front of a list cannot be shown, the list cannot.
proof fn lemma_display_items_prefix(items: Seq<Bencode>, i: int)
    requires
        0 <= i <= items.len(),
        display_items(items.take(i)) is None,
    ensures
        display_items(items) is None,
    decreases items.len(),
{
    if i == items.len() {
        assert(items.take(i) =~= items);
    } else {
        assert(items.drop_last().take(i) =~= items.take(i));
        lemma_display_items_prefix(items.drop_last(), i);
    }
}

/// Where the front of a dictionary cannot be shown, the dictionary cannot.
proof fn lemma_display_entries_prefix(es: Entries, i: int)
    requires
        0 <= i <= es.len(),
        display_entries(es.take(i)) is None,
    ensures
        display_entries(es) is None,
    decreases es.len(),
{
    if i == es.len() {
        assert(es.take(i) =~= es);
    } else {
        assert(es.drop_last().take(i) =~= es.take(i));
        lemma_display_entries_prefix(es.drop_last(), i);
    }
}

/// Appends to `out` how `v` is shown. Gives `false`, and leaves in `out`
/// what was written so far, where `v` cannot be shown.
fn write_display(v: &BencodeValue, out: &mut String) -> (ok: bool)
    ensures
        ok == display_text(v@) is Some,
        ok ==> final(out)@ == old(out)@ + display_text(v@).unwrap(),
    decreases v,
{
    match v {
        BencodeValue::Integer(i) => {
            let mut digits: Vec<u8> = Vec::new();
            push_int_text(&mut digits, *i);
            assert(digits@ =~= int_text(*i as int));
            push_ascii(out, digits.as_slice());
            true
        },
        BencodeValue::ByteString(b) => {
            match string_from_utf8(slice_to_vec(b.as_slice())) {
                Some(text) => {
                    let quoted = string_debug(text.as_str());
                    out.append(quoted.as_str());
                    true
                },
                None => false,
            }
        },
        BencodeValue::List(items) => {
            let ghost model = values_view(items@);
            assert(v@->List_0 =~= model);
            push_char(out, '[');
            let mut i: usize = 0;
            assert(model.take(0) =~= Seq::<Bencode>::empty());
            while i < items.len()
                invariant
                    i <= items.len(),
                    v is List,
                    v->List_0 == *items,
                    model == values_view(items@),
                    v@ == Bencode::List(model),
                    display_items(model.take(i as int)) is Some,
                    out@ == old(out)@ + seq!['['] + display_items(model.take(i as int)).unwrap(),
                decreases items.len() - i,
            {
                let ghost longer = model.take(i + 1);
                proof {
                    assert(longer.drop_last() =~= model.take(i as int));
                    assert(longer.last() == items@[i as int]@);
                }
                if i > 0 {
                    push_char(out, ',');
                }
                let ghost before = out@;
                if !write_display(&items[i], out) {
                    proof {
                        assert(longer.len() > 0);
                        assert(display_text(longer.last()) is None);
                        assert(display_items(longer) is None);
                        lemma_display_items_prefix(model, i + 1);
                    }
                    return false;
                }
                proof {
                    let front = display_items(model.take(i as int)).unwrap();
                    let t = display_text(items@[i as int]@).unwrap();
                    if i == 0 {
                        assert(model.take(0) =~= Seq::<Bencode>::empty());
                        assert(out@ =~= old(out)@ + seq!['['] + t);
                    } else {
                        assert(out@ =~= old(out)@ + seq!['['] + (front + seq![','] + t));
                    }
                }
                i += 1;
            }
            assert(model.take(items.len() as int) =~= model);
            push_char(out, ']');
            assert(out@ =~= old(out)@ + display_text(v@).unwrap());
            true
        },
        BencodeValue::Dictionary(dict) => {
            let ghost model = dict@;
            push_char(out, '{');
            let n: usize = dict.len();
            let mut i: usize = 0;
            assert(model.take(0) =~= Entries::empty());
            while i < n
                invariant
                    i <= n,
                    n == model.len(),
                    v is Dictionary,
                    v->Dictionary_0 == *dict,
                    model == dict@,
                    display_entries(model.take(i as int)) is Some,
                    out@ == old(out)@ + seq!['{'] + display_entries(
                        model.take(i as int),
                    ).unwrap(),
                decreases n - i,
            {
                let ghost longer = model.take(i + 1);
                proof {
                    assert(longer.drop_last() =~= model.take(i as int));
                    assert(longer.last() == model[i as int]);
                }
                if i > 0 {
                    push_char(out, ',');
                }
                let key = string_from_utf8_lossy(dict.key_at(i).as_slice());
                push_char(out, '"');
                out.append(key.as_str());
                push_char(out, '"');
                push_char(out, ':');
                if !write_display(dict.value_at(i), out) {
                    proof {
                        assert(longer.len() > 0);
                        assert(display_text(longer.last().1) is None);
                        assert(display_entries(longer) is None);
                        lemma_display_entries_prefix(model, i + 1);
                    }
                    return false;
                }
                proof {
                    let front = display_entries(model.take(i as int)).unwrap();
                    let t = display_text(model[i as int].1).unwrap();
                    let entry = display_entry(model[i as int].0, t);
                    if i == 0 {
                        assert(model.take(0) =~= Entries::empty());
                        assert(out@ =~= old(out)@ + seq!['{'] + entry);
                    } else {
                        assert(out@ =~= old(out)@ + seq!['{'] + (front + seq![','] + entry));
                    }
                }
                i += 1;
            }
            assert(model.take(n as int) =~= model);
            push_char(out, '}');
            assert(out@ =~= old(out)@ + display_text(v@).unwrap());
            true
        },
    }
}

/// Values that can be shown as text.
pub trait ValueToString {
    /// What `to_string` gives.
    spec fn shown(&self) -> Result<Seq<char>, Error>;

    /// The value as text, or the reason why it has none.
    fn to_string(&self) -> (r: Result<String, Error>)
        ensures
            match r {
                Ok(s) => self.shown() == Ok::<Seq<char>, Error>(s@),
                Err(e) => self.shown() == Err::<Seq<char>, Error>(e),
            },
    ;
}

impl ValueToString for BencodeValue {
    open spec fn shown(&self) -> Result<Seq<char>, Error> {
        display_spec(self@)
    }

    /// Fails with `InvalidUtf8` where a byte string in the value is not
    /// valid UTF-8.
    fn to_string(&self) -> (r: Result<String, Error>) {
        let mut out = String::new();
        if write_display(self, &mut out) {
            assert(out@ =~= display_text(self@).unwrap());
            Ok(out)
        } else {
            Err(Error::InvalidUtf8)
        }
    }
}

} // verus!
