//! Lookup in keyed lists.
//!
//! Several tables of this crate are kept as lists of entries in the order in
//! which their keys first appeared. The functions here find a key in such a
//! list.

use vstd::prelude::*;

use crate::utility::text::texts;
use crate::version::key::VersionKey;

verus! {

/// The first index at which `key` occurs in `keys`, if it occurs at all.
pub open spec fn position<K>(keys: Seq<K>, key: K) -> Option<int>
    decreases keys.len(),
{
    if keys.len() == 0 {
        None
    } else {
        match position(keys.drop_last(), key) {
            Some(i) => Some(i),
            None => if keys.last() == key {
                Some(keys.len() - 1)
            } else {
                None
            },
        }
    }
}

/// No key occurs twice.
pub open spec fn distinct<K>(keys: Seq<K>) -> bool {
    forall|i: int, j: int| 0 <= i < j < keys.len() ==> keys[i] != keys[j]
}

/// `position` finds the first occurrence, and finds nothing only where there
/// is none.
pub proof fn lemma_position<K>(keys: Seq<K>, key: K)
    ensures
        match position(keys, key) {
            Some(i) => 0 <= i < keys.len() && keys[i] == key && forall|j: int|
                0 <= j < i ==> keys[j] != key,
            None => forall|j: int| 0 <= j < keys.len() ==> keys[j] != key,
        },
    decreases keys.len(),
{
    if keys.len() > 0 {
        lemma_position(keys.drop_last(), key);
        match position(keys.drop_last(), key) {
            Some(i) => {
                assert(keys.drop_last()[i] == keys[i]);
                assert forall|j: int| 0 <= j < i implies keys[j] != key by {
                    assert(keys.drop_last()[j] == keys[j]);
                }
            },
            None => {
                assert forall|j: int| 0 <= j < keys.len() - 1 implies keys[j] != key by {
                    assert(keys.drop_last()[j] == keys[j]);
                }
            },
        }
    }
}

/// An index that holds the key, with no earlier one that does, is its position.
pub proof fn lemma_position_is<K>(keys: Seq<K>, key: K, i: int)
    requires
        0 <= i < keys.len(),
        keys[i] == key,
        forall|j: int| 0 <= j < i ==> keys[j] != key,
    ensures
        position(keys, key) == Some(i),
{
    lemma_position(keys, key);
}

/// A key that occurs nowhere has no position.
pub proof fn lemma_position_none<K>(keys: Seq<K>, key: K)
    requires
        forall|j: int| 0 <= j < keys.len() ==> keys[j] != key,
    ensures
        position(keys, key) is None,
{
    lemma_position(keys, key);
}

/// In a list of distinct keys, every index is the position of its key.
pub proof fn lemma_position_distinct<K>(keys: Seq<K>, i: int)
    requires
        distinct(keys),
        0 <= i < keys.len(),
    ensures
        position(keys, keys[i]) == Some(i),
{
    lemma_position(keys, keys[i]);
}

/// Appending a key changes no position but, possibly, its own.
pub proof fn lemma_position_push<K>(keys: Seq<K>, added: K, key: K)
    ensures
        position(keys.push(added), key) == match position(keys, key) {
            Some(i) => Some(i),
            None => if added == key {
                Some(keys.len() as int)
            } else {
                None
            },
        },
{
    assert(keys.push(added).drop_last() =~= keys);
}

/// The keys of a table, in the order of its entries.
pub open spec fn keys_of<K, V>(table: Seq<(K, V)>) -> Seq<K> {
    table.map_values(|e: (K, V)| e.0)
}

/// The value a table holds for a key.
pub open spec fn lookup<K, V>(table: Seq<(K, V)>, key: K) -> Option<V> {
    match position(keys_of(table), key) {
        Some(i) => Some(table[i].1),
        None => None,
    }
}

/// The table with a value set for a key: in place where the table holds the
/// key, at the end where it does not.
pub open spec fn upsert<K, V>(table: Seq<(K, V)>, key: K, value: V) -> Seq<(K, V)> {
    match position(keys_of(table), key) {
        Some(i) => table.update(i, (key, value)),
        None => table.push((key, value)),
    }
}

/// The table without the entries of a given value.
pub open spec fn without_value<K, V>(table: Seq<(K, V)>, value: V) -> Seq<(K, V)> {
    table.filter(|e: (K, V)| e.1 != value)
}

/// Setting a value keeps the keys distinct, and changes what the table holds
/// for that key alone.
pub proof fn lemma_upsert<K, V>(table: Seq<(K, V)>, key: K, value: V)
    requires
        distinct(keys_of(table)),
    ensures
        distinct(keys_of(upsert(table, key, value))),
        lookup(upsert(table, key, value), key) == Some(value),
        forall|other: K| other != key ==> lookup(upsert(table, key, value), other) == lookup(table, other),
{
    let after = upsert(table, key, value);
    lemma_position(keys_of(table), key);
    match position(keys_of(table), key) {
        Some(i) => {
            assert(keys_of(after) =~= keys_of(table));
        },
        None => {
            assert(keys_of(after) =~= keys_of(table).push(key));
            lemma_position_push(keys_of(table), key, key);
        },
    }
    assert forall|other: K| other != key implies lookup(after, other) == lookup(table, other) by {
        lemma_position(keys_of(table), other);
        match position(keys_of(table), key) {
            Some(i) => {},
            None => {
                lemma_position_push(keys_of(table), key, other);
            },
        }
    }
}

/// Dropping the entries of a value keeps the keys distinct, and leaves every
/// other key with what it had.
pub proof fn lemma_without_value<K, V>(table: Seq<(K, V)>, value: V)
    requires
        distinct(keys_of(table)),
    ensures
        distinct(keys_of(without_value(table, value))),
        forall|key: K| #[trigger]
            lookup(without_value(table, value), key) == match lookup(table, key) {
                Some(v) => if v != value {
                    Some(v)
                } else {
                    None
                },
                None => None,
            },
    decreases table.len(),
{
    reveal(Seq::filter);
    let kept = without_value(table, value);
    if table.len() > 0 {
        let front = table.drop_last();
        let last = table.last();
        let kept_front = without_value(front, value);
        assert(keys_of(front) =~= keys_of(table).drop_last());
        assert(keys_of(table) =~= keys_of(front).push(last.0));
        lemma_without_value(front, value);
        // The last key occurs nowhere before the last entry.
        assert forall|j: int| 0 <= j < front.len() implies keys_of(front)[j] != last.0 by {
            assert(keys_of(table)[j] != keys_of(table)[table.len() - 1]);
        }
        lemma_position_none(keys_of(front), last.0);
        assert(lookup(front, last.0) is None);
        assert(lookup(kept_front, last.0) is None);
        lemma_position(keys_of(kept_front), last.0);
        if last.1 != value {
            assert(kept == kept_front.push(last));
            assert(keys_of(kept) =~= keys_of(kept_front).push(last.0));
        } else {
            assert(kept == kept_front);
        }
        assert forall|key: K| #[trigger]
            lookup(kept, key) == match lookup(table, key) {
                Some(v) => if v != value {
                    Some(v)
                } else {
                    None
                },
                None => None,
            } by {
            lemma_position_push(keys_of(front), last.0, key);
            lemma_position(keys_of(front), key);
            lemma_position(keys_of(kept_front), key);
            assert(lookup(kept_front, key) == match lookup(front, key) {
                Some(v) => if v != value {
                    Some(v)
                } else {
                    None
                },
                None => None,
            });
            if last.1 != value {
                lemma_position_push(keys_of(kept_front), last.0, key);
            }
            match position(keys_of(front), key) {
                Some(j) => {
                    assert(table[j] == front[j]);
                },
                None => {},
            }
        }
    }
}

/// Finds the entry of a key.
pub fn find_key<V>(table: &Vec<(VersionKey, V)>, key: VersionKey) -> (r: Option<usize>)
    ensures
        match r {
            Some(i) => position(keys_of(table@), key) == Some(i as int) && i < table@.len(),
            None => position(keys_of(table@), key) is None,
        },
{
    let mut i: usize = 0;
    while i < table.len()
        invariant
            i <= table.len(),
            forall|j: int| 0 <= j < i ==> keys_of(table@)[j] != key,
        decreases table.len() - i,
    {
        if table[i].0 == key {
            proof {
                lemma_position_is(keys_of(table@), key, i as int);
            }
            return Some(i);
        }
        i = i + 1;
    }
    proof {
        lemma_position_none(keys_of(table@), key);
    }
    None
}

/// The names that key a list of entries.
pub open spec fn entry_names<V>(entries: Seq<(String, V)>) -> Seq<Seq<char>> {
    entries.map_values(|e: (String, V)| e.0@)
}

/// Finds the entry of a name.
pub fn find_entry<V>(entries: &Vec<(String, V)>, name: &String) -> (r: Option<usize>)
    ensures
        match r {
            Some(i) => position(entry_names(entries@), name@) == Some(i as int),
            None => position(entry_names(entries@), name@) is None,
        },
{
    let mut i: usize = 0;
    while i < entries.len()
        invariant
            i <= entries.len(),
            forall|j: int| 0 <= j < i ==> entry_names(entries@)[j] != name@,
        decreases entries.len() - i,
    {
        if entries[i].0 == *name {
            proof {
                lemma_position_is(entry_names(entries@), name@, i as int);
            }
            return Some(i);
        }
        i = i + 1;
    }
    proof {
        lemma_position_none(entry_names(entries@), name@);
    }
    None
}

/// Finds a text in a list of strings.
pub fn find_name(strings: &Vec<String>, name: &String) -> (r: Option<usize>)
    ensures
        match r {
            Some(i) => position(texts(strings@), name@) == Some(i as int),
            None => position(texts(strings@), name@) is None,
        },
{
    let mut i: usize = 0;
    while i < strings.len()
        invariant
            i <= strings.len(),
            forall|j: int| 0 <= j < i ==> texts(strings@)[j] != name@,
        decreases strings.len() - i,
    {
        if strings[i] == *name {
            proof {
                lemma_position_is(texts(strings@), name@, i as int);
            }
            return Some(i);
        }
        i = i + 1;
    }
    proof {
        lemma_position_none(texts(strings@), name@);
    }
    None
}

} // verus!
