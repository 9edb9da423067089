//! Dictionaries as entries in ascending key order.

use vstd::prelude::*;
use crate::bencode::value::{
    BencodeValue, Value, entries_view, keys_ascending, lemma_entries_view, lex_less,
};

verus! {

/// How one key stands to another in byte order.
#[derive(Debug, Clone, Copy, PartialEq, Eq, Structural)]
pub enum KeyOrder {
    Before,
    Same,
    After,
}

/// No key comes before itself.
pub proof fn lemma_lex_irreflexive(a: Seq<u8>)
    ensures
        !lex_less(a, a),
    decreases a.len(),
{
    if a.len() > 0 {
        lemma_lex_irreflexive(a.drop_first());
    }
}

/// Of two different keys exactly one comes first.
pub proof fn lemma_lex_total(a: Seq<u8>, b: Seq<u8>)
    ensures
        a != b ==> (lex_less(a, b) <==> !lex_less(b, a)),
        a == b ==> !lex_less(a, b) && !lex_less(b, a),
    decreases a.len(),
{
    if a == b {
        lemma_lex_irreflexive(a);
    } else if a.len() > 0 && b.len() > 0 && a[0] == b[0] {
        lemma_lex_total(a.drop_first(), b.drop_first());
        if a.drop_first() == b.drop_first() {
            assert(a =~= seq![a[0]] + a.drop_first());
            assert(b =~= seq![b[0]] + b.drop_first());
        }
    } else if a.len() == 0 {
        assert(b.len() > 0) by {
            if b.len() == 0 {
                assert(a =~= b);
            }
        }
    }
}

/// The byte order is transitive.
pub proof fn lemma_lex_transitive(a: Seq<u8>, b: Seq<u8>, c: Seq<u8>)
    requires
        lex_less(a, b),
        lex_less(b, c),
    ensures
        lex_less(a, c),
    decreases a.len(),
{
    if a.len() > 0 && a[0] == b[0] && b[0] == c[0] {
        lemma_lex_transitive(a.drop_first(), b.drop_first(), c.drop_first());
    }
}

/// Compares two keys in byte order.
pub fn key_order(a: &[u8], b: &[u8]) -> (order: KeyOrder)
    ensures
        order == KeyOrder::Before <==> lex_less(a@, b@),
        order == KeyOrder::Same <==> a@ == b@,
        order == KeyOrder::After <==> lex_less(b@, a@),
{
    let mut i: usize = 0;
    proof {
        assert(a@.skip(0) =~= a@);
        assert(b@.skip(0) =~= b@);
    }
    while i < a.len() && i < b.len()
        invariant
            i <= a.len(),
            i <= b.len(),
            a@.take(i as int) == b@.take(i as int),
            lex_less(a@, b@) == lex_less(a@.skip(i as int), b@.skip(i as int)),
            lex_less(b@, a@) == lex_less(b@.skip(i as int), a@.skip(i as int)),
        decreases a.len() - i,
    {
        let x = a[i];
        let y = b[i];
        proof {
            assert(a@.skip(i as int)[0] == x);
            assert(b@.skip(i as int)[0] == y);
        }
        if x < y {
            proof {
                assert(a@[i as int] != b@[i as int]);
            }
            return KeyOrder::Before;
        }
        if y < x {
            proof {
                assert(a@[i as int] != b@[i as int]);
            }
            return KeyOrder::After;
        }
        proof {
            assert(a@.skip(i as int).drop_first() =~= a@.skip(i + 1));
            assert(b@.skip(i as int).drop_first() =~= b@.skip(i + 1));
            assert(a@.take(i + 1) =~= a@.take(i as int).push(x));
            assert(b@.take(i + 1) =~= b@.take(i as int).push(y));
        }
        i += 1;
    }
    if i < b.len() {
        proof {
            assert(a@.skip(i as int).len() == 0);
            assert(a@.len() != b@.len());
        }
        KeyOrder::Before
    } else if i < a.len() {
        proof {
            assert(b@.skip(i as int).len() == 0);
            assert(a@.len() != b@.len());
        }
        KeyOrder::After
    } else {
        proof {
            assert(a@ =~= a@.take(i as int));
            assert(b@ =~= b@.take(i as int));
            lemma_lex_irreflexive(a@);
        }
        KeyOrder::Same
    }
}

/// Index of the first entry of `d` whose key does not come before `k`.
pub open spec fn insertion_index(d: Seq<(Seq<u8>, Value)>, k: Seq<u8>) -> nat
    decreases d.len(),
{
    if d.len() == 0 || !lex_less(d[0].0, k) {
        0
    } else {
        1 + insertion_index(d.drop_first(), k)
    }
}

/// `d` with `k` bound to `v`: the entry replaces one with the same key, or
/// else goes where it keeps the keys in order.
pub open spec fn dict_insert(d: Seq<(Seq<u8>, Value)>, k: Seq<u8>, v: Value) -> Seq<
    (Seq<u8>, Value),
> {
    let p = insertion_index(d, k) as int;
    if p < d.len() && d[p].0 == k {
        d.update(p, (k, v))
    } else {
        d.insert(p, (k, v))
    }
}

/// The dictionary that holds `es`, entered one by one from the first: of
/// two entries with one key the later one stays.
pub open spec fn dict_from_entries(es: Seq<(Seq<u8>, Value)>) -> Seq<(Seq<u8>, Value)>
    decreases es.len(),
{
    if es.len() == 0 {
        Seq::empty()
    } else {
        dict_insert(dict_from_entries(es.drop_last()), es.last().0, es.last().1)
    }
}

/// Where `insertion_index` points: all keys before it come before `k`, and
/// the key there, if any, does not.
pub proof fn lemma_insertion_index(d: Seq<(Seq<u8>, Value)>, k: Seq<u8>)
    ensures
        insertion_index(d, k) <= d.len(),
        forall|i: int| 0 <= i < insertion_index(d, k) ==> lex_less(#[trigger] d[i].0, k),
        insertion_index(d, k) < d.len() ==> !lex_less(d[insertion_index(d, k) as int].0, k),
    decreases d.len(),
{
    if d.len() == 0 || !lex_less(d[0].0, k) {
    } else {
        let t = d.drop_first();
        lemma_insertion_index(t, k);
        assert forall|i: int| 0 <= i < insertion_index(d, k) implies lex_less(
            #[trigger] d[i].0,
            k,
        ) by {
            if i > 0 {
                assert(d[i] == t[i - 1]);
            }
        }
        assert(insertion_index(d, k) < d.len() ==> d[insertion_index(d, k) as int] == t[
            insertion_index(t, k) as int
        ]);
    }
}

/// An index with the two properties of `lemma_insertion_index` is the
/// insertion index.
pub proof fn lemma_insertion_index_is(d: Seq<(Seq<u8>, Value)>, k: Seq<u8>, p: int)
    requires
        0 <= p <= d.len(),
        forall|i: int| 0 <= i < p ==> lex_less(#[trigger] d[i].0, k),
        p < d.len() ==> !lex_less(d[p].0, k),
    ensures
        insertion_index(d, k) == p,
    decreases d.len(),
{
    if p == 0 {
    } else {
        let t = d.drop_first();
        assert(lex_less(d[0].0, k));
        assert forall|i: int| 0 <= i < p - 1 implies lex_less(#[trigger] t[i].0, k) by {
            assert(t[i] == d[i + 1]);
        }
        if p - 1 < t.len() {
            assert(t[p - 1] == d[p]);
        }
        lemma_insertion_index_is(t, k, p - 1);
    }
}

/// Inserting into ascending keys leaves them ascending.
pub proof fn lemma_dict_insert_ascending(d: Seq<(Seq<u8>, Value)>, k: Seq<u8>, v: Value)
    requires
        keys_ascending(d),
    ensures
        keys_ascending(dict_insert(d, k, v)),
{
    lemma_insertion_index(d, k);
    let p = insertion_index(d, k) as int;
    let r = dict_insert(d, k, v);
    if p < d.len() && d[p].0 == k {
        assert forall|i: int, j: int| 0 <= i < j < r.len() implies lex_less(
            #[trigger] r[i].0,
            #[trigger] r[j].0,
        ) by {
            assert(r[i].0 == d[i].0);
            assert(r[j].0 == d[j].0);
        }
    } else {
        assert forall|i: int, j: int| 0 <= i < j < r.len() implies lex_less(
            #[trigger] r[i].0,
            #[trigger] r[j].0,
        ) by {
            if j < p {
                assert(r[i] == d[i] && r[j] == d[j]);
            } else if j == p {
                assert(r[i] == d[i]);
            } else if i == p {
                // k comes before every key from p on
                assert(r[j] == d[j - 1]);
                lemma_lex_total(d[p].0, k);
                if j - 1 > p {
                    assert(lex_less(d[p].0, d[j - 1].0));
                    lemma_lex_transitive(k, d[p].0, d[j - 1].0);
                }
            } else if i < p {
                assert(r[i] == d[i] && r[j] == d[j - 1]);
            } else {
                assert(r[i] == d[i - 1] && r[j] == d[j - 1]);
            }
        }
    }
}

/// Whatever the entries, the dictionary made of them has ascending keys.
pub proof fn lemma_dict_from_entries_ascending(es: Seq<(Seq<u8>, Value)>)
    ensures
        keys_ascending(dict_from_entries(es)),
    decreases es.len(),
{
    if es.len() > 0 {
        lemma_dict_from_entries_ascending(es.drop_last());
        lemma_dict_insert_ascending(dict_from_entries(es.drop_last()), es.last().0, es.last().1);
    }
}

/// A key behind all keys of `d` is appended.
pub proof fn lemma_dict_insert_last(d: Seq<(Seq<u8>, Value)>, k: Seq<u8>, v: Value)
    requires
        forall|i: int| 0 <= i < d.len() ==> lex_less(#[trigger] d[i].0, k),
    ensures
        dict_insert(d, k, v) == d.push((k, v)),
{
    lemma_insertion_index_is(d, k, d.len() as int);
    assert(d.insert(d.len() as int, (k, v)) =~= d.push((k, v)));
}

/// Entries that already ascend make the dictionary that lists them as they are.
pub proof fn lemma_dict_from_ascending(es: Seq<(Seq<u8>, Value)>)
    requires
        keys_ascending(es),
    ensures
        dict_from_entries(es) == es,
    decreases es.len(),
{
    if es.len() > 0 {
        let front = es.drop_last();
        assert(keys_ascending(front)) by {
            assert forall|i: int, j: int| 0 <= i < j < front.len() implies lex_less(
                #[trigger] front[i].0,
                #[trigger] front[j].0,
            ) by {
                assert(front[i] == es[i] && front[j] == es[j]);
            }
        }
        lemma_dict_from_ascending(front);
        assert forall|i: int| 0 <= i < front.len() implies lex_less(
            #[trigger] front[i].0,
            es.last().0,
        ) by {
            assert(front[i] == es[i]);
        }
        lemma_dict_insert_last(front, es.last().0, es.last().1);
        assert(front.push(es.last()) =~= es);
    }
}

/// Binds `key` to `value` in `entries`, which stand for a dictionary.
pub fn insert_entry(entries: &mut Vec<(Vec<u8>, BencodeValue)>, key: Vec<u8>, value: BencodeValue)
    ensures
        entries_view(final(entries)@) == dict_insert(entries_view(old(entries)@), key@, value@),
{
    let ghost before = entries_view(entries@);
    proof {
        lemma_entries_view(entries@);
    }
    let mut i: usize = 0;
    let mut found: bool = false;
    while i < entries.len()
        invariant_except_break
            !found,
        invariant
            i <= entries.len(),
            entries@ == old(entries)@,
            before == entries_view(entries@),
            before.len() == entries.len(),
            forall|j: int| 0 <= j < entries.len() ==> (#[trigger] before[j]).0 == entries[j].0@,
            forall|j: int| 0 <= j < i ==> lex_less(#[trigger] before[j].0, key@),
        ensures
            i <= entries.len(),
            entries@ == old(entries)@,
            i < entries.len() ==> !lex_less(before[i as int].0, key@),
            forall|j: int| 0 <= j < i ==> lex_less(#[trigger] before[j].0, key@),
            found <==> (i < entries.len() && before[i as int].0 == key@),
        decreases entries.len() - i,
    {
        let order = key_order(entries[i].0.as_slice(), key.as_slice());
        match order {
            KeyOrder::Before => {
                i += 1;
            },
            KeyOrder::Same => {
                proof {
                    lemma_lex_irreflexive(key@);
                }
                found = true;
                break ;
            },
            KeyOrder::After => {
                proof {
                    lemma_lex_total(before[i as int].0, key@);
                }
                break ;
            },
        }
    }
    proof {
        lemma_insertion_index_is(before, key@, i as int);
    }
    let ghost entry = (key@, value@);
    if found {
        entries.set(i, (key, value));
        proof {
            lemma_entries_view(entries@);
            assert(entries_view(entries@) =~= before.update(i as int, entry));
        }
    } else {
        entries.insert(i, (key, value));
        proof {
            lemma_entries_view(entries@);
            assert(entries_view(entries@) =~= before.insert(i as int, entry));
        }
    }
}

} // verus!
