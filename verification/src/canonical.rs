//! Why the order in which a dictionary is filled does not show in what is
//! written for it: a dictionary is fixed by what it binds each key to, and
//! its entries are written in ascending key order.

use vstd::prelude::*;
use crate::grammar::encode_spec;
use crate::lexical::{lemma_lex_asymmetric, lemma_lex_irreflexive, lex_lt};
use crate::model::{
    dict_get, dict_insert, dict_of, keys_ascending, lemma_dict_of_ascending,
    lemma_insert_ascending, Bencode, Entries,
};

verus! {

/// No key occurs in two places.
pub open spec fn distinct_keys(ps: Entries) -> bool {
    forall|i: int, j: int|
        #![trigger ps[i], ps[j]]
        0 <= i < j < ps.len() ==> ps[i].0 != ps[j].0
}

/// After binding `k` to `v`, `k` is bound to `v` and every other key to
/// what it was bound to before.
pub proof fn lemma_get_after_insert(d: Entries, k: Seq<u8>, v: Bencode, other: Seq<u8>)
    ensures
        dict_get(dict_insert(d, k, v), other) == if other == k {
            Some(v)
        } else {
            dict_get(d, other)
        },
    decreases d.len(),
{
    let r = dict_insert(d, k, v);
    if d.len() == 0 {
        assert(r.len() == 1 && r.last() == (k, v));
        assert(r.drop_last() =~= d);
    } else if lex_lt(d.last().0, k) {
        assert(r.len() > 0 && r.last() == (k, v));
        assert(r.drop_last() =~= d);
    } else if d.last().0 == k {
        assert(r.len() > 0 && r.last() == (k, v));
        assert(r.drop_last() =~= d.drop_last());
    } else {
        let inner = dict_insert(d.drop_last(), k, v);
        lemma_get_after_insert(d.drop_last(), k, v, other);
        assert(r.len() > 0 && r.last() == d.last());
        assert(r.drop_last() =~= inner);
    }
}

/// A dictionary that was built from a sequence of bindings binds each key
/// to what the last binding of that key in the sequence says.
pub proof fn lemma_get_of_dict_of(ps: Entries, k: Seq<u8>)
    ensures
        dict_get(dict_of(ps), k) == dict_get(ps, k),
    decreases ps.len(),
{
    if ps.len() > 0 {
        lemma_get_of_dict_of(ps.drop_last(), k);
        lemma_get_after_insert(dict_of(ps.drop_last()), ps.last().0, ps.last().1, k);
    }
}

/// What a key is bound to is one of the entries.
pub proof fn lemma_get_is_entry(ps: Entries, k: Seq<u8>)
    ensures
        match dict_get(ps, k) {
            Some(v) => ps.contains((k, v)),
            None => forall|i: int| 0 <= i < ps.len() ==> (#[trigger] ps[i]).0 != k,
        },
    decreases ps.len(),
{
    if ps.len() > 0 {
        let front = ps.drop_last();
        if ps.last().0 == k {
            assert(ps[ps.len() - 1] == (k, ps.last().1));
        } else {
            lemma_get_is_entry(front, k);
            match dict_get(front, k) {
                Some(v) => {
                    let i = choose|i: int| 0 <= i < front.len() && front[i] == (k, v);
                    assert(ps[i] == (k, v));
                },
                None => {
                    assert forall|i: int| 0 <= i < ps.len() implies (#[trigger] ps[i]).0 != k by {
                        if i < front.len() {
                            assert(front[i] == ps[i]);
                        }
                    }
                },
            }
        }
    }
}

/// Where no key occurs twice, every entry is what its key is bound to.
pub proof fn lemma_entry_is_got(ps: Entries, i: int)
    requires
        distinct_keys(ps),
        0 <= i < ps.len(),
    ensures
        dict_get(ps, ps[i].0) == Some(ps[i].1),
{
    lemma_get_is_entry(ps, ps[i].0);
    match dict_get(ps, ps[i].0) {
        Some(v) => {
            let j = choose|j: int| 0 <= j < ps.len() && ps[j] == (ps[i].0, v);
            if i < j {
                assert(ps[i].0 != ps[j].0);
            } else if j < i {
                assert(ps[j].0 != ps[i].0);
            }
        },
        None => {},
    }
}

/// In ascending order no key occurs twice.
pub proof fn lemma_ascending_distinct(es: Entries)
    requires
        keys_ascending(es),
    ensures
        distinct_keys(es),
{
    assert forall|i: int, j: int|
        #![trigger es[i], es[j]]
        0 <= i < j < es.len() implies es[i].0 != es[j].0 by {
        lemma_lex_irreflexive(es[i].0);
    }
}

/// A dictionary is fixed by what it binds: two sequences of entries in
/// ascending key order that bind every key to the same are the same.
pub proof fn lemma_ascending_unique(a: Entries, b: Entries)
    requires
        keys_ascending(a),
        keys_ascending(b),
        forall|k: Seq<u8>| dict_get(a, k) == dict_get(b, k),
    ensures
        a == b,
    decreases a.len(),
{
    lemma_ascending_distinct(a);
    lemma_ascending_distinct(b);
    if a.len() == 0 {
        if b.len() > 0 {
            lemma_entry_is_got(b, b.len() - 1);
            assert(dict_get(a, b[b.len() - 1].0) is None);
        }
        assert(a =~= b);
    } else if b.len() == 0 {
        lemma_entry_is_got(a, a.len() - 1);
        assert(dict_get(b, a[a.len() - 1].0) is None);
    } else {
        let n: int = a.len() - 1;
        let m: int = b.len() - 1;
        // The last entry of each is an entry of the other.
        lemma_entry_is_got(a, n);
        lemma_get_is_entry(b, a[n].0);
        let j = choose|j: int| 0 <= j < b.len() && b[j] == (a[n].0, a[n].1);
        lemma_entry_is_got(b, m);
        lemma_get_is_entry(a, b[m].0);
        let i = choose|i: int| 0 <= i < a.len() && a[i] == (b[m].0, b[m].1);
        if j < m {
            assert(lex_lt(b[j].0, b[m].0));
            if i < n {
                assert(lex_lt(a[i].0, a[n].0));
                lemma_lex_asymmetric(a[i].0, a[n].0);
            } else {
                lemma_lex_irreflexive(a[n].0);
            }
            assert(false);
        }
        assert(a[n] == b[m]);
        let fa = a.drop_last();
        let fb = b.drop_last();
        assert forall|x: int, y: int|
            #![trigger fa[x], fa[y]]
            0 <= x < y < fa.len() implies lex_lt(fa[x].0, fa[y].0) by {
            assert(fa[x] == a[x] && fa[y] == a[y]);
        }
        assert forall|x: int, y: int|
            #![trigger fb[x], fb[y]]
            0 <= x < y < fb.len() implies lex_lt(fb[x].0, fb[y].0) by {
            assert(fb[x] == b[x] && fb[y] == b[y]);
        }
        assert forall|k: Seq<u8>| dict_get(fa, k) == dict_get(fb, k) by {
            if k == a[n].0 {
                lemma_get_is_entry(fa, k);
                lemma_get_is_entry(fb, k);
                if dict_get(fa, k) is Some {
                    let x = choose|x: int| 0 <= x < fa.len() && fa[x] == (k, dict_get(fa, k)->0);
                    assert(fa[x] == a[x]);
                    assert(lex_lt(a[x].0, a[n].0));
                    lemma_lex_irreflexive(k);
                }
                if dict_get(fb, k) is Some {
                    let y = choose|y: int| 0 <= y < fb.len() && fb[y] == (k, dict_get(fb, k)->0);
                    assert(fb[y] == b[y]);
                    assert(lex_lt(b[y].0, b[m].0));
                    lemma_lex_irreflexive(k);
                }
            } else {
                assert(dict_get(a, k) == dict_get(fa, k));
                assert(dict_get(b, k) == dict_get(fb, k));
            }
        }
        lemma_ascending_unique(fa, fb);
        assert(a =~= fa.push(a[n]));
        assert(b =~= fb.push(b[m]));
    }
}

/// The order in which a dictionary is filled does not matter. Two
/// sequences of bindings that hold the same pairs, each key once, build
/// the same dictionary, whatever their order; its keys are ascending, and
/// so the same bytes are written for both, with the keys in ascending
/// order.
pub proof fn lemma_insertion_order_irrelevant(ps: Entries, qs: Entries)
    requires
        distinct_keys(ps),
        distinct_keys(qs),
        forall|e: (Seq<u8>, Bencode)| ps.contains(e) <==> qs.contains(e),
    ensures
        dict_of(ps) == dict_of(qs),
        keys_ascending(dict_of(ps)),
        encode_spec(Bencode::Dictionary(dict_of(ps))) == encode_spec(
            Bencode::Dictionary(dict_of(qs)),
        ),
{
    lemma_dict_of_ascending(ps);
    lemma_dict_of_ascending(qs);
    assert forall|k: Seq<u8>| dict_get(dict_of(ps), k) == dict_get(dict_of(qs), k) by {
        lemma_get_of_dict_of(ps, k);
        lemma_get_of_dict_of(qs, k);
        lemma_get_is_entry(ps, k);
        lemma_get_is_entry(qs, k);
        match dict_get(ps, k) {
            Some(v) => {
                assert(qs.contains((k, v)));
                let j = choose|j: int| 0 <= j < qs.len() && qs[j] == (k, v);
                lemma_entry_is_got(qs, j);
            },
            None => {
                match dict_get(qs, k) {
                    Some(w) => {
                        assert(ps.contains((k, w)));
                        let i = choose|i: int| 0 <= i < ps.len() && ps[i] == (k, w);
                        assert(ps[i].0 == k);
                    },
                    None => {},
                }
            },
        }
    }
    lemma_ascending_unique(dict_of(ps), dict_of(qs));
}

/// Binding two different keys gives the same dictionary in either order.
pub proof fn lemma_insert_commutes(
    d: Entries,
    k1: Seq<u8>,
    v1: Bencode,
    k2: Seq<u8>,
    v2: Bencode,
)
    requires
        keys_ascending(d),
        k1 != k2,
    ensures
        dict_insert(dict_insert(d, k1, v1), k2, v2) == dict_insert(dict_insert(d, k2, v2), k1, v1),
{
    let a = dict_insert(dict_insert(d, k1, v1), k2, v2);
    let b = dict_insert(dict_insert(d, k2, v2), k1, v1);
    lemma_insert_ascending(d, k1, v1);
    lemma_insert_ascending(d, k2, v2);
    lemma_insert_ascending(dict_insert(d, k1, v1), k2, v2);
    lemma_insert_ascending(dict_insert(d, k2, v2), k1, v1);
    assert forall|k: Seq<u8>| dict_get(a, k) == dict_get(b, k) by {
        lemma_get_after_insert(dict_insert(d, k1, v1), k2, v2, k);
        lemma_get_after_insert(d, k1, v1, k);
        lemma_get_after_insert(dict_insert(d, k2, v2), k1, v1, k);
        lemma_get_after_insert(d, k2, v2, k);
    }
    lemma_ascending_unique(a, b);
}

} // verus!
