//! The mathematical model of a bencode value, and of a dictionary as a
//! sequence of entries in ascending key order.

use vstd::prelude::*;
use crate::lexical::{lemma_lex_irreflexive, lemma_lex_total, lemma_lex_transitive, lex_lt};

verus! {

/// A bencode value as a mathematical object. A dictionary is the sequence
/// of its entries; a well-formed one has them in strictly ascending key
/// order, so that equal dictionaries are equal sequences.
pub enum Bencode {
    /// A whole number.
    Integer(int),
    /// A string of bytes.
    ByteString(Seq<u8>),
    /// Values in a fixed order.
    List(Seq<Bencode>),
    /// Keys with their values, entry by entry.
    Dictionary(Seq<(Seq<u8>, Bencode)>),
}

/// The entries of a dictionary.
pub type Entries = Seq<(Seq<u8>, Bencode)>;

/// Each key comes strictly before every later key. No key occurs twice.
pub open spec fn keys_ascending(es: Entries) -> bool {
    forall|i: int, j: int|
        #![trigger es[i], es[j]]
        0 <= i < j < es.len() ==> lex_lt(es[i].0, es[j].0)
}

impl Bencode {
    /// Integers fit in 64 bits and every dictionary, at any depth, has its
    /// keys in ascending order.
    pub open spec fn well_formed(self) -> bool
        decreases self,
    {
        match self {
            Bencode::Integer(i) => i64::MIN <= i <= i64::MAX,
            Bencode::ByteString(_) => true,
            Bencode::List(items) => forall|i: int|
                0 <= i < items.len() ==> (#[trigger] items[i]).well_formed(),
            Bencode::Dictionary(es) => keys_ascending(es) && forall|i: int|
                0 <= i < es.len() ==> (#[trigger] es[i]).1.well_formed(),
        }
    }
}

/// The dictionary `d` with `k` bound to `v`: a binding of `k` that was
/// there is replaced, and a new one takes its place in key order.
pub open spec fn dict_insert(d: Entries, k: Seq<u8>, v: Bencode) -> Entries
    decreases d.len(),
{
    if d.len() == 0 {
        seq![(k, v)]
    } else if lex_lt(d.last().0, k) {
        d.push((k, v))
    } else if d.last().0 == k {
        d.drop_last().push((k, v))
    } else {
        dict_insert(d.drop_last(), k, v).push(d.last())
    }
}

/// What `d` binds `k` to, if anything.
pub open spec fn dict_get(d: Entries, k: Seq<u8>) -> Option<Bencode>
    decreases d.len(),
{
    if d.len() == 0 {
        None
    } else if d.last().0 == k {
        Some(d.last().1)
    } else {
        dict_get(d.drop_last(), k)
    }
}

/// The dictionary that results from binding the pairs of `ps` one after the
/// other, from the first to the last, starting from the empty dictionary.
pub open spec fn dict_of(ps: Entries) -> Entries
    decreases ps.len(),
{
    if ps.len() == 0 {
        Seq::empty()
    } else {
        dict_insert(dict_of(ps.drop_last()), ps.last().0, ps.last().1)
    }
}

/// Where a new binding goes. If every key before position `p` is smaller
/// than `k` and the key at `p`, if there is one, is not, then binding `k`
/// replaces the entry at `p` when that has key `k` and else puts the new
/// entry in front of it. The result is in ascending order again.
pub proof fn lemma_insert_at(d: Entries, k: Seq<u8>, v: Bencode, p: int)
    requires
        keys_ascending(d),
        0 <= p <= d.len(),
        forall|i: int| 0 <= i < p ==> lex_lt((#[trigger] d[i]).0, k),
        p < d.len() ==> !lex_lt(d[p].0, k),
    ensures
        p < d.len() && d[p].0 == k ==> dict_insert(d, k, v) == d.update(p, (k, v)),
        !(p < d.len() && d[p].0 == k) ==> dict_insert(d, k, v) == d.insert(p, (k, v)),
        keys_ascending(dict_insert(d, k, v)),
    decreases d.len(),
{
    let n: int = d.len() as int;
    if n == 0 {
        assert(d.insert(0, (k, v)) =~= seq![(k, v)]);
    } else {
        let last = d[n - 1];
        if lex_lt(last.0, k) {
            if p < n {
                if p < n - 1 {
                    assert(lex_lt(d[p].0, d[n - 1].0));
                    lemma_lex_transitive(d[p].0, last.0, k);
                }
                assert(false);
            }
            assert(d.insert(n, (k, v)) =~= d.push((k, v)));
        } else if last.0 == k {
            lemma_lex_irreflexive(k);
            if p < n - 1 {
                assert(lex_lt(d[p].0, d[n - 1].0));
                assert(false);
            }
            if p == n {
                assert(lex_lt(d[n - 1].0, k));
                assert(false);
            }
            assert(d.update(p, (k, v)) =~= d.drop_last().push((k, v)));
        } else {
            if p == n {
                assert(lex_lt(d[n - 1].0, k));
                assert(false);
            }
            let front = d.drop_last();
            assert(keys_ascending(front)) by {
                assert forall|i: int, j: int|
                    #![trigger front[i], front[j]]
                    0 <= i < j < front.len() implies lex_lt(front[i].0, front[j].0) by {
                    assert(front[i] == d[i] && front[j] == d[j]);
                }
            }
            assert forall|i: int| 0 <= i < p implies lex_lt((#[trigger] front[i]).0, k) by {
                assert(front[i] == d[i]);
            }
            lemma_insert_at(front, k, v, p);
            if p < n - 1 && d[p].0 == k {
                assert(front[p] == d[p]);
                assert(d.update(p, (k, v)) =~= front.update(p, (k, v)).push(last));
            } else {
                if p < n - 1 {
                    assert(front[p] == d[p]);
                }
                assert(d.insert(p, (k, v)) =~= front.insert(p, (k, v)).push(last));
            }
        }
    }
    // The order of the result, from the positional form.
    let r = dict_insert(d, k, v);
    if p < n && d[p].0 == k {
        assert forall|i: int, j: int|
            #![trigger r[i], r[j]]
            0 <= i < j < r.len() implies lex_lt(r[i].0, r[j].0) by {
            assert(r[i].0 == d[i].0 && r[j].0 == d[j].0);
        }
    } else {
        if p < n {
            lemma_lex_total(d[p].0, k);
        }
        assert forall|i: int, j: int|
            #![trigger r[i], r[j]]
            0 <= i < j < r.len() implies lex_lt(r[i].0, r[j].0) by {
            if j < p {
                assert(r[i] == d[i] && r[j] == d[j]);
            } else if j == p {
                assert(r[i] == d[i]);
            } else if i < p {
                assert(r[i] == d[i] && r[j] == d[j - 1]);
            } else if i == p {
                assert(r[j] == d[j - 1]);
                if j - 1 > p {
                    assert(lex_lt(d[p].0, d[j - 1].0));
                    lemma_lex_transitive(k, d[p].0, d[j - 1].0);
                }
            } else {
                assert(r[i] == d[i - 1] && r[j] == d[j - 1]);
            }
        }
    }
}

/// Binding a key in an ascending dictionary leaves it ascending.
pub proof fn lemma_insert_ascending(d: Entries, k: Seq<u8>, v: Bencode)
    requires
        keys_ascending(d),
    ensures
        keys_ascending(dict_insert(d, k, v)),
{
    let p: int = insert_position(d, k);
    lemma_insert_position(d, k);
    lemma_insert_at(d, k, v, p);
}

/// How many keys of `d` come before `k`.
pub open spec fn insert_position(d: Entries, k: Seq<u8>) -> int
    decreases d.len(),
{
    if d.len() == 0 {
        0
    } else if lex_lt(d.last().0, k) {
        d.len() as int
    } else {
        insert_position(d.drop_last(), k)
    }
}

/// In an ascending dictionary the keys before `k` are exactly those at the
/// positions below `insert_position`.
pub proof fn lemma_insert_position(d: Entries, k: Seq<u8>)
    requires
        keys_ascending(d),
    ensures
        0 <= insert_position(d, k) <= d.len(),
        forall|i: int| 0 <= i < insert_position(d, k) ==> lex_lt((#[trigger] d[i]).0, k),
        insert_position(d, k) < d.len() ==> !lex_lt(d[insert_position(d, k)].0, k),
    decreases d.len(),
{
    let n: int = d.len() as int;
    if n > 0 {
        if lex_lt(d[n - 1].0, k) {
            assert forall|i: int| 0 <= i < n implies lex_lt((#[trigger] d[i]).0, k) by {
                if i < n - 1 {
                    assert(lex_lt(d[i].0, d[n - 1].0));
                    lemma_lex_transitive(d[i].0, d[n - 1].0, k);
                }
            }
        } else {
            let front = d.drop_last();
            assert forall|i: int, j: int|
                #![trigger front[i], front[j]]
                0 <= i < j < front.len() implies lex_lt(front[i].0, front[j].0) by {
                assert(front[i] == d[i] && front[j] == d[j]);
            }
            lemma_insert_position(front, k);
            let p: int = insert_position(front, k);
            assert forall|i: int| 0 <= i < p implies lex_lt((#[trigger] d[i]).0, k) by {
                assert(front[i] == d[i]);
            }
            if p < n - 1 {
                assert(front[p] == d[p]);
            }
        }
    }
}

/// Any sequence of bindings builds an ascending dictionary.
pub proof fn lemma_dict_of_ascending(ps: Entries)
    ensures
        keys_ascending(dict_of(ps)),
    decreases ps.len(),
{
    if ps.len() > 0 {
        lemma_dict_of_ascending(ps.drop_last());
        lemma_insert_ascending(dict_of(ps.drop_last()), ps.last().0, ps.last().1);
    }
}

/// Binding the entries of an ascending dictionary one after the other
/// builds that same dictionary.
pub proof fn lemma_dict_of_ascending_is_identity(es: Entries)
    requires
        keys_ascending(es),
    ensures
        dict_of(es) == es,
    decreases es.len(),
{
    if es.len() == 0 {
        assert(es =~= Seq::empty());
    } else {
        let n: int = es.len() as int;
        let front = es.drop_last();
        assert forall|i: int, j: int|
            #![trigger front[i], front[j]]
            0 <= i < j < front.len() implies lex_lt(front[i].0, front[j].0) by {
            assert(front[i] == es[i] && front[j] == es[j]);
        }
        lemma_dict_of_ascending_is_identity(front);
        if n > 1 {
            assert(front.last() == es[n - 2]);
            assert(lex_lt(es[n - 2].0, es[n - 1].0));
        }
        assert(front.push(es.last()) =~= es);
    }
}

/// Every value of the dictionary that a sequence of bindings builds is the
/// value of one of the bindings.
pub proof fn lemma_dict_of_values(ps: Entries)
    ensures
        forall|i: int|
            0 <= i < dict_of(ps).len() ==> exists|j: int|
                0 <= j < ps.len() && ps[j] == #[trigger] dict_of(ps)[i],
        (forall|j: int| 0 <= j < ps.len() ==> (#[trigger] ps[j]).1.well_formed()) ==> forall|
            i: int,
        | 0 <= i < dict_of(ps).len() ==> (#[trigger] dict_of(ps)[i]).1.well_formed(),
    decreases ps.len(),
{
    if ps.len() > 0 {
        let front = ps.drop_last();
        let d = dict_of(front);
        let k = ps.last().0;
        let v = ps.last().1;
        lemma_dict_of_values(front);
        lemma_dict_of_ascending(front);
        lemma_insert_position(d, k);
        let p: int = insert_position(d, k);
        lemma_insert_at(d, k, v, p);
        let r = dict_of(ps);
        assert forall|i: int| 0 <= i < r.len() implies exists|j: int|
            0 <= j < ps.len() && ps[j] == #[trigger] r[i] by {
            if i == p {
                assert(ps[ps.len() - 1] == r[i]);
            } else {
                let old_i: int = if p < d.len() && d[p].0 == k {
                    i
                } else if i < p {
                    i
                } else {
                    i - 1
                };
                assert(r[i] == d[old_i]);
                let j = choose|j: int| 0 <= j < front.len() && front[j] == d[old_i];
                assert(ps[j] == r[i]);
            }
        }
        if forall|j: int| 0 <= j < ps.len() ==> (#[trigger] ps[j]).1.well_formed() {
            assert forall|i: int| 0 <= i < r.len() implies (#[trigger] r[i]).1.well_formed() by {
                let j = choose|j: int| 0 <= j < ps.len() && ps[j] == r[i];
                assert(ps[j].1.well_formed());
            }
        }
    }
}

} // verus!
