//! Ordered dictionaries with unique keys: the entry list held by
//! `PrefValue::Dictionary`, and the operations every key-level mutation of
//! a domain goes through.
//!
//! A dictionary keeps its entries in insertion order.  Writing an existing
//! key replaces its value in place; writing a fresh key appends; removing
//! a key closes the gap and leaves every other entry where it was.

use vstd::prelude::*;

use crate::values::PrefValue;
use crate::values::SpecValue;
use crate::values::dict_keys_unique;
use crate::values::lemma_entries_of_props;
use crate::values::spec_entries_of;

verus! {

/// Index of the first entry with key `k`, if any.
pub open spec fn dict_key_idx(es: Seq<(Seq<char>, SpecValue)>, k: Seq<char>) -> Option<int>
    decreases es,
{
    if es.len() == 0 {
        None
    } else if es[0].0 == k {
        Some(0int)
    } else {
        match dict_key_idx(es.subrange(1, es.len() as int), k) {
            Some(i) => Some(i + 1),
            None => None,
        }
    }
}

/// The value stored under key `k`, if any.
pub open spec fn dict_get(es: Seq<(Seq<char>, SpecValue)>, k: Seq<char>) -> Option<SpecValue> {
    match dict_key_idx(es, k) {
        Some(i) => Some(es[i].1),
        None => None,
    }
}

/// Whether key `k` is present.
pub open spec fn dict_has(es: Seq<(Seq<char>, SpecValue)>, k: Seq<char>) -> bool {
    dict_key_idx(es, k) is Some
}

/// The entries after storing `v` under `k`: an existing key is replaced in
/// place, a fresh key is appended.
pub open spec fn dict_insert(
    es: Seq<(Seq<char>, SpecValue)>,
    k: Seq<char>,
    v: SpecValue,
) -> Seq<(Seq<char>, SpecValue)> {
    match dict_key_idx(es, k) {
        Some(i) => es.update(i, (k, v)),
        None => es.push((k, v)),
    }
}

/// The entries after removing key `k`, if it was present.
pub open spec fn dict_remove(
    es: Seq<(Seq<char>, SpecValue)>,
    k: Seq<char>,
) -> Seq<(Seq<char>, SpecValue)> {
    match dict_key_idx(es, k) {
        Some(i) => es.remove(i),
        None => es,
    }
}

/// What `dict_key_idx` means, index by index.
pub broadcast proof fn lemma_dict_key_idx(es: Seq<(Seq<char>, SpecValue)>, k: Seq<char>)
    ensures
        match #[trigger] dict_key_idx(es, k) {
            Some(i) => 0 <= i < es.len() && es[i].0 == k && (forall|j: int|
                0 <= j < i ==> es[j].0 != k),
            None => forall|j: int| 0 <= j < es.len() ==> es[j].0 != k,
        },
    decreases es,
{
    if es.len() > 0 && es[0].0 != k {
        let tail = es.subrange(1, es.len() as int);
        lemma_dict_key_idx(tail, k);
        assert(forall|j: int| 0 <= j < tail.len() ==> tail[j] == es[j + 1]);
        assert(forall|j: int| 1 <= j < es.len() ==> #[trigger] es[j] == tail[j - 1]);
    }
}

/// A scan that found `k` first at `i` pins `dict_key_idx` down to `Some(i)`.
pub proof fn lemma_dict_key_idx_from_scan(es: Seq<(Seq<char>, SpecValue)>, k: Seq<char>, i: int)
    requires
        0 <= i < es.len(),
        es[i].0 == k,
        forall|j: int| 0 <= j < i ==> es[j].0 != k,
    ensures
        dict_key_idx(es, k) == Some(i),
    decreases es,
{
    if i > 0 {
        let tail = es.subrange(1, es.len() as int);
        assert(forall|j: int| 0 <= j < tail.len() ==> tail[j] == es[j + 1]);
        lemma_dict_key_idx_from_scan(tail, k, i - 1);
    }
}

/// A scan that never found `k` pins `dict_key_idx` down to `None`.
pub proof fn lemma_dict_key_idx_from_miss(es: Seq<(Seq<char>, SpecValue)>, k: Seq<char>)
    requires
        forall|j: int| 0 <= j < es.len() ==> es[j].0 != k,
    ensures
        dict_key_idx(es, k) == None::<int>,
{
    broadcast use lemma_dict_key_idx;

    if dict_key_idx(es, k) is Some {
        let i = dict_key_idx(es, k)->Some_0;
        assert(es[i].0 == k);
        assert(false);
    }
}

/// After an insert, `k` maps to `v`.
pub proof fn lemma_insert_get(es: Seq<(Seq<char>, SpecValue)>, k: Seq<char>, v: SpecValue)
    ensures
        dict_get(dict_insert(es, k, v), k) == Some(v),
        dict_has(dict_insert(es, k, v), k),
{
    broadcast use lemma_dict_key_idx;

    match dict_key_idx(es, k) {
        Some(i) => {
            let es2 = es.update(i, (k, v));
            lemma_dict_key_idx_from_scan(es2, k, i);
        },
        None => {
            let es2 = es.push((k, v));
            lemma_dict_key_idx_from_scan(es2, k, es.len() as int);
        },
    }
}

/// An insert under `k` leaves every other key's binding alone.
pub proof fn lemma_insert_other(
    es: Seq<(Seq<char>, SpecValue)>,
    k: Seq<char>,
    v: SpecValue,
    k2: Seq<char>,
)
    requires
        k2 != k,
    ensures
        dict_get(dict_insert(es, k, v), k2) == dict_get(es, k2),
{
    broadcast use lemma_dict_key_idx;

    let es2 = dict_insert(es, k, v);
    match dict_key_idx(es, k2) {
        Some(i2) => {
            assert(es2[i2].0 == k2);
            lemma_dict_key_idx_from_scan(es2, k2, i2);
        },
        None => {
            lemma_dict_key_idx_from_miss(es2, k2);
        },
    }
}

/// An insert keeps keys unique.
pub proof fn lemma_insert_unique(es: Seq<(Seq<char>, SpecValue)>, k: Seq<char>, v: SpecValue)
    requires
        dict_keys_unique(es),
    ensures
        dict_keys_unique(dict_insert(es, k, v)),
{
    broadcast use lemma_dict_key_idx;

}

/// After a removal under unique keys, `k` is gone.
pub proof fn lemma_remove_get(es: Seq<(Seq<char>, SpecValue)>, k: Seq<char>)
    requires
        dict_keys_unique(es),
    ensures
        dict_get(dict_remove(es, k), k) == None::<SpecValue>,
        !dict_has(dict_remove(es, k), k),
{
    broadcast use lemma_dict_key_idx;

    match dict_key_idx(es, k) {
        Some(i) => {
            let es2 = es.remove(i);
            assert(forall|j: int| 0 <= j < i ==> es2[j] == es[j]);
            assert(forall|j: int| i <= j < es2.len() ==> es2[j] == es[j + 1]);
            lemma_dict_key_idx_from_miss(es2, k);
        },
        None => {},
    }
}

/// A removal under `k` leaves every other key's binding alone.
pub proof fn lemma_remove_other(es: Seq<(Seq<char>, SpecValue)>, k: Seq<char>, k2: Seq<char>)
    requires
        k2 != k,
    ensures
        dict_get(dict_remove(es, k), k2) == dict_get(es, k2),
{
    broadcast use lemma_dict_key_idx;

    match dict_key_idx(es, k) {
        Some(i) => {
            let es2 = es.remove(i);
            assert(forall|j: int| 0 <= j < i ==> es2[j] == es[j]);
            assert(forall|j: int| i <= j < es2.len() ==> es2[j] == es[j + 1]);
            match dict_key_idx(es, k2) {
                Some(i2) => {
                    if i2 < i {
                        lemma_dict_key_idx_from_scan(es2, k2, i2);
                    } else {
                        assert(i2 != i);
                        assert(es2[i2 - 1] == es[i2]);
                        assert forall|j: int| 0 <= j < i2 - 1 implies es2[j].0 != k2 by {
                            if j < i {
                                assert(es2[j] == es[j]);
                            } else {
                                assert(es2[j] == es[j + 1]);
                            }
                        }
                        lemma_dict_key_idx_from_scan(es2, k2, i2 - 1);
                    }
                },
                None => {
                    lemma_dict_key_idx_from_miss(es2, k2);
                },
            }
        },
        None => {},
    }
}

/// A removal keeps keys unique.
pub proof fn lemma_remove_unique(es: Seq<(Seq<char>, SpecValue)>, k: Seq<char>)
    requires
        dict_keys_unique(es),
    ensures
        dict_keys_unique(dict_remove(es, k)),
{
    broadcast use lemma_dict_key_idx;

    match dict_key_idx(es, k) {
        Some(i) => {
            let es2 = es.remove(i);
            assert forall|a: int, b: int| 0 <= a < b < es2.len() implies es2[a].0 != es2[b].0 by {
                let a0 = if a < i { a } else { a + 1 };
                let b0 = if b < i { b } else { b + 1 };
                assert(es2[a] == es[a0]);
                assert(es2[b] == es[b0]);
            }
        },
        None => {},
    }
}

/// Storing the same binding twice is the same as storing it once.
pub proof fn lemma_insert_idempotent(es: Seq<(Seq<char>, SpecValue)>, k: Seq<char>, v: SpecValue)
    ensures
        dict_insert(dict_insert(es, k, v), k, v) == dict_insert(es, k, v),
{
    broadcast use lemma_dict_key_idx;

    let es1 = dict_insert(es, k, v);
    match dict_key_idx(es, k) {
        Some(i) => {
            lemma_dict_key_idx_from_scan(es1, k, i);
            assert(dict_insert(es1, k, v) =~= es1);
        },
        None => {
            lemma_dict_key_idx_from_scan(es1, k, es.len() as int);
            assert(dict_insert(es1, k, v) =~= es1);
        },
    }
}

/// Whether the executable entry list holds any key twice.
pub fn dict_has_duplicate_keys(entries: &Vec<(String, PrefValue)>) -> (r: bool)
    ensures
        r == !dict_keys_unique(spec_entries_of(entries@)),
{
    broadcast use lemma_entries_of_props;

    let ghost es = spec_entries_of(entries@);
    let n = entries.len();
    for i in 0..n
        invariant
            n == entries.len(),
            es == spec_entries_of(entries@),
            es.len() == n,
            forall|a: int, b: int| 0 <= a < b < i ==> es[a].0 != es[b].0,
        decreases n - i,
    {
        proof {
            lemma_entries_of_props(entries@);
        }
        for j in 0..i
            invariant
                n == entries.len(),
                i < n,
                es == spec_entries_of(entries@),
                es.len() == n,
                forall|a: int| 0 <= a < j ==> es[a].0 != es[i as int].0,
            decreases i - j,
        {
            proof {
                lemma_entries_of_props(entries@);
            }
            if entries[j].0 == entries[i].0 {
                proof {
                    assert(es[j as int].0 == es[i as int].0);
                    assert(!dict_keys_unique(es));
                }
                return true;
            }
        }
    }
    false
}

/// First index holding `key`, scanning the executable entry list.
pub fn dict_find(entries: &Vec<(String, PrefValue)>, key: &str) -> (r: Option<usize>)
    ensures
        match r {
            Some(i) => dict_key_idx(spec_entries_of(entries@), key@) == Some(i as int) && i
                < entries.len(),
            None => dict_key_idx(spec_entries_of(entries@), key@) == None::<int>,
        },
{
    broadcast use lemma_entries_of_props;

    let key_owned = key.to_owned();
    let ghost es = spec_entries_of(entries@);
    let n = entries.len();
    for i in 0..n
        invariant
            n == entries.len(),
            key_owned@ == key@,
            es == spec_entries_of(entries@),
            es.len() == n,
            forall|j: int| 0 <= j < i ==> es[j].0 != key@,
        decreases n - i,
    {
        proof {
            lemma_entries_of_props(entries@);
        }
        if entries[i].0 == key_owned {
            proof {
                lemma_dict_key_idx_from_scan(es, key@, i as int);
            }
            return Some(i);
        }
    }
    proof {
        lemma_dict_key_idx_from_miss(es, key@);
    }
    None
}

/// Store `value` under `key`, replacing in place or appending.
pub fn dict_set(entries: &mut Vec<(String, PrefValue)>, key: &str, value: PrefValue)
    ensures
        spec_entries_of(final(entries)@) == dict_insert(
            spec_entries_of(old(entries)@),
            key@,
            value@,
        ),
{
    broadcast use lemma_entries_of_props;

    let ghost es = spec_entries_of(entries@);
    let key_owned = key.to_owned();
    match dict_find(entries, key) {
        Some(i) => {
            entries[i] = (key_owned, value);
            proof {
                assert(spec_entries_of(entries@) =~= es.update(i as int, (key@, value@)));
            }
        },
        None => {
            entries.push((key_owned, value));
            proof {
                assert(spec_entries_of(entries@) =~= es.push((key@, value@)));
            }
        },
    }
}

/// Remove `key` if present; say whether it was.
pub fn dict_del(entries: &mut Vec<(String, PrefValue)>, key: &str) -> (found: bool)
    ensures
        spec_entries_of(final(entries)@) == dict_remove(spec_entries_of(old(entries)@), key@),
        found == dict_has(spec_entries_of(old(entries)@), key@),
{
    broadcast use lemma_entries_of_props;

    let ghost es = spec_entries_of(entries@);
    match dict_find(entries, key) {
        Some(i) => {
            entries.remove(i);
            proof {
                assert(spec_entries_of(entries@) =~= es.remove(i as int));
            }
            true
        },
        None => false,
    }
}

/// Remove `key` and hand its value back, if it was present.
pub fn dict_take(entries: &mut Vec<(String, PrefValue)>, key: &str) -> (r: Option<PrefValue>)
    ensures
        spec_entries_of(final(entries)@) == dict_remove(spec_entries_of(old(entries)@), key@),
        match r {
            Some(v) => dict_get(spec_entries_of(old(entries)@), key@) == Some(v@),
            None => dict_get(spec_entries_of(old(entries)@), key@) == None::<SpecValue>,
        },
{
    broadcast use lemma_entries_of_props;

    let ghost es = spec_entries_of(entries@);
    match dict_find(entries, key) {
        Some(i) => {
            let entry = entries.remove(i);
            proof {
                assert(spec_entries_of(entries@) =~= es.remove(i as int));
            }
            Some(entry.1)
        },
        None => None,
    }
}

/// Borrow the value under `key`, if present.
pub fn dict_lookup<'a>(entries: &'a Vec<(String, PrefValue)>, key: &str) -> (r: Option<
    &'a PrefValue,
>)
    ensures
        match r {
            Some(v) => dict_get(spec_entries_of(entries@), key@) == Some(v@),
            None => dict_get(spec_entries_of(entries@), key@) == None::<SpecValue>,
        },
{
    broadcast use lemma_entries_of_props;

    match dict_find(entries, key) {
        Some(i) => Some(&entries[i].1),
        None => None,
    }
}

} // verus!
