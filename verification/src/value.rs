//! Bencode values as they are held in memory.

use vstd::prelude::*;
use vstd::slice::slice_to_vec;
use crate::lexical::{bytes_equal, bytes_less, lex_lt};
use crate::model::{
    dict_get, dict_insert, dict_of, keys_ascending, lemma_insert_at, Bencode, Entries,
};

verus! {

/// A bencode value: an integer, a byte string, a list or a dictionary.
#[derive(Debug, PartialEq, Eq)]
pub enum BencodeValue {
    /// A whole number that fits in 64 bits with a sign.
    Integer(i64),
    /// A string of bytes; it need not be text.
    ByteString(Vec<u8>),
    /// Values in a fixed order.
    List(Vec<BencodeValue>),
    /// Values under byte-string keys.
    Dictionary(BencodeDict),
}

/// A dictionary from byte-string keys to values. The entries are kept in
/// strictly ascending byte-lexicographic key order, whatever the order in
/// which they were bound.
#[derive(Debug, PartialEq, Eq)]
pub struct BencodeDict {
    entries: Vec<(Vec<u8>, BencodeValue)>,
}

impl View for BencodeValue {
    type V = Bencode;

    open spec fn view(&self) -> Bencode
        decreases self,
    {
        match self {
            BencodeValue::Integer(i) => Bencode::Integer(*i as int),
            BencodeValue::ByteString(b) => Bencode::ByteString(b@),
            BencodeValue::List(items) => Bencode::List(
                Seq::new(
                    items@.len(),
                    |i: int|
                        if 0 <= i < items@.len() {
                            items@[i].view()
                        } else {
                            Bencode::Integer(0)
                        },
                ),
            ),
            BencodeValue::Dictionary(d) => Bencode::Dictionary(d.view()),
        }
    }
}

impl View for BencodeDict {
    type V = Entries;

    closed spec fn view(&self) -> Entries
        decreases self,
    {
        Seq::new(
            self.entries@.len(),
            |i: int|
                if 0 <= i < self.entries@.len() {
                    (self.entries@[i].0@, self.entries@[i].1.view())
                } else {
                    (Seq::empty(), Bencode::Integer(0))
                },
        )
    }
}

/// The models of the values of a vector, one by one.
pub open spec fn values_view(items: Seq<BencodeValue>) -> Seq<Bencode> {
    Seq::new(items.len(), |i: int| items[i]@)
}

/// The model of a vector of entries, entry by entry.
pub open spec fn entries_view(entries: Seq<(Vec<u8>, BencodeValue)>) -> Entries {
    Seq::new(entries.len(), |i: int| (entries[i].0@, entries[i].1@))
}

impl BencodeDict {
    #[verifier::type_invariant]
    spec fn ascending(self) -> bool {
        keys_ascending(self@)
    }

    /// The empty dictionary.
    pub fn new() -> (d: BencodeDict)
        ensures
            d@ == Entries::empty(),
    {
        let d = BencodeDict { entries: Vec::new() };
        assert(d@ =~= Entries::empty());
        d
    }

    /// The dictionary that binding the pairs of `entries` one after the
    /// other builds, from the first to the last. Where a key comes more
    /// than once, its last value stays.
    pub fn from_entries(entries: Vec<(Vec<u8>, BencodeValue)>) -> (d: BencodeDict)
        ensures
            d@ == dict_of(entries_view(entries@)),
    {
        let ghost all = entries_view(entries@);
        // Turn the vector round, so that its first pair can be taken first.
        let mut entries = entries;
        let mut reversed: Vec<(Vec<u8>, BencodeValue)> = Vec::new();
        while entries.len() > 0
            invariant
                entries_view(entries@) + entries_view(reversed@).reverse() =~= all,
            decreases entries@.len(),
        {
            let ghost before = entries@;
            let ghost turned = reversed@;
            match entries.pop() {
                Some(pair) => {
                    reversed.push(pair);
                    assert(entries_view(reversed@).reverse() =~= seq![(pair.0@, pair.1@)]
                        + entries_view(turned).reverse());
                    assert(entries_view(before) =~= entries_view(entries@).push(
                        (pair.0@, pair.1@),
                    ));
                },
                None => {},
            }
        }
        assert(entries_view(reversed@).reverse() =~= all);
        let mut d = BencodeDict::new();
        let ghost mut done: Entries = Seq::empty();
        while reversed.len() > 0
            invariant
                d@ == dict_of(done),
                done + entries_view(reversed@).reverse() =~= all,
            decreases reversed@.len(),
        {
            let ghost before = reversed@;
            match reversed.pop() {
                Some(pair) => {
                    proof {
                        let longer = done.push((pair.0@, pair.1@));
                        assert(longer.drop_last() =~= done);
                        assert(entries_view(before).reverse() =~= seq![(pair.0@, pair.1@)]
                            + entries_view(reversed@).reverse());
                        done = longer;
                    }
                    d.insert(pair.0, pair.1);
                },
                None => {},
            }
        }
        assert(done =~= all);
        d
    }

    /// The number of entries. The entries are in ascending key order.
    pub fn len(&self) -> (n: usize)
        ensures
            n == self@.len(),
            keys_ascending(self@),
    {
        proof {
            use_type_invariant(self);
        }
        self.entries.len()
    }

    /// The key of the entry at position `i` in key order.
    pub fn key_at(&self, i: usize) -> (k: &Vec<u8>)
        requires
            i < self@.len(),
        ensures
            k@ == self@[i as int].0,
    {
        &self.entries[i].0
    }

    /// The value of the entry at position `i` in key order.
    pub fn value_at(&self, i: usize) -> (v: &BencodeValue)
        requires
            i < self@.len(),
        ensures
            v@ == self@[i as int].1,
            decreases_to!(*self => *v),
    {
        &self.entries[i].1
    }

    /// The value bound to `key`, if there is one.
    pub fn get(&self, key: &[u8]) -> (r: Option<&BencodeValue>)
        ensures
            match r {
                Some(v) => dict_get(self@, key@) == Some(v@) && decreases_to!(*self => *v),
                None => dict_get(self@, key@) is None,
            },
    {
        let mut i: usize = self.entries.len();
        assert(self@.take(i as int) =~= self@);
        while i > 0
            invariant
                i <= self@.len(),
                self@.len() == self.entries@.len(),
                dict_get(self@, key@) == dict_get(self@.take(i as int), key@),
            decreases i,
        {
            i -= 1;
            proof {
                let t = self@.take(i + 1);
                assert(t.last() == self@[i as int]);
                assert(t.drop_last() =~= self@.take(i as int));
            }
            if bytes_equal(self.entries[i].0.as_slice(), key) {
                return Some(&self.entries[i].1);
            }
        }
        None
    }

    /// Binds `key` to `value`: replaces the value of an entry with that
    /// key, or puts a new entry at its place in key order.
    pub fn insert(&mut self, key: Vec<u8>, value: BencodeValue)
        ensures
            final(self)@ == dict_insert(old(self)@, key@, value@),
    {
        proof {
            use_type_invariant(&*self);
        }
        let ghost before = self@;
        // Work on the entries outside the dictionary, which is empty meanwhile.
        let mut entries: Vec<(Vec<u8>, BencodeValue)> = Vec::new();
        core::mem::swap(&mut self.entries, &mut entries);
        assert(entries_view(entries@) =~= before);
        let mut p: usize = 0;
        while p < entries.len() && bytes_less(entries[p].0.as_slice(), key.as_slice())
            invariant
                p <= entries@.len(),
                entries_view(entries@) == before,
                forall|i: int| 0 <= i < p ==> lex_lt((#[trigger] before[i]).0, key@),
            decreases entries@.len() - p,
        {
            p += 1;
        }
        proof {
            lemma_insert_at(before, key@, value@, p as int);
        }
        if p < entries.len() && bytes_equal(entries[p].0.as_slice(), key.as_slice()) {
            entries[p] = (key, value);
            assert(entries_view(entries@) =~= before.update(p as int, (key@, value@)));
        } else {
            entries.insert(p, (key, value));
            assert(entries_view(entries@) =~= before.insert(p as int, (key@, value@)));
        }
        proof {
            let d = BencodeDict { entries };
            assert(d@ =~= entries_view(entries@));
        }
        self.entries = entries;
    }
}

impl Clone for BencodeValue {
    /// A copy that holds the same value.
    fn clone(&self) -> (copy: BencodeValue)
        ensures
            copy@ == self@,
        decreases self,
    {
        match self {
            BencodeValue::Integer(i) => BencodeValue::Integer(*i),
            BencodeValue::ByteString(b) => BencodeValue::ByteString(
                slice_to_vec(b.as_slice()),
            ),
            BencodeValue::List(items) => {
                let mut copies: Vec<BencodeValue> = Vec::new();
                let mut i: usize = 0;
                while i < items.len()
                    invariant
                        i <= items.len(),
                        self is List,
                        self->List_0 == *items,
                        copies@.len() == i,
                        forall|j: int| 0 <= j < i ==> (#[trigger] copies@[j])@ == items@[j]@,
                    decreases items.len() - i,
                {
                    copies.push(items[i].clone());
                    i += 1;
                }
                let copy = BencodeValue::List(copies);
                assert(copy@->List_0 =~= self@->List_0);
                copy
            },
            BencodeValue::Dictionary(d) => BencodeValue::Dictionary(d.clone()),
        }
    }
}

impl Clone for BencodeDict {
    /// A copy that holds the same entries.
    fn clone(&self) -> (copy: BencodeDict)
        ensures
            copy@ == self@,
        decreases self,
    {
        proof {
            use_type_invariant(self);
        }
        let mut entries: Vec<(Vec<u8>, BencodeValue)> = Vec::new();
        let mut i: usize = 0;
        while i < self.entries.len()
            invariant
                i <= self.entries@.len(),
                entries@.len() == i,
                forall|j: int|
                    0 <= j < i ==> (#[trigger] entries@[j]).0@ == self.entries@[j].0@
                        && entries@[j].1@ == self.entries@[j].1@,
            decreases self.entries@.len() - i,
        {
            let key = slice_to_vec(self.entries[i].0.as_slice());
            let value = self.entries[i].1.clone();
            entries.push((key, value));
            i += 1;
        }
        proof {
            let d = BencodeDict { entries };
            assert(d@ =~= self@);
        }
        BencodeDict { entries }
    }
}

} // verus!
