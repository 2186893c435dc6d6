//! Association-list semantics: lookup by unsigned identifier in a
//! sequence of key/value entries.

use vstd::prelude::*;

verus! {

/// Index of the first entry with the given key, `-1` if absent.
pub open spec fn key_index<T>(m: Seq<(u32, T)>, key: u32) -> int
    decreases m.len(),
{
    if m.len() == 0 {
        -1
    } else if m[0].0 == key {
        0
    } else {
        let r = key_index(m.drop_first(), key);
        if r < 0 {
            -1
        } else {
            r + 1
        }
    }
}

/// Whether some entry holds the key.
pub open spec fn has_key<T>(m: Seq<(u32, T)>, key: u32) -> bool {
    exists|k: int| 0 <= k < m.len() && (#[trigger] m[k]).0 == key
}

/// The value stored under the key, if any.
pub open spec fn key_lookup<T>(m: Seq<(u32, T)>, key: u32) -> Option<T> {
    if key_index(m, key) >= 0 {
        Some(m[key_index(m, key)].1)
    } else {
        None
    }
}

/// No two entries share a key.
pub open spec fn unique_keys<T>(m: Seq<(u32, T)>) -> bool {
    forall|a: int, b: int| 0 <= a < b < m.len() ==> (#[trigger] m[a]).0 != (#[trigger] m[b]).0
}

/// What [`key_index`] finds: the first entry with the key, or proof that
/// none exists.
pub proof fn lemma_key_index<T>(m: Seq<(u32, T)>, key: u32)
    ensures
        -1 <= key_index(m, key) < m.len(),
        key_index(m, key) == -1 <==> !has_key(m, key),
        key_index(m, key) >= 0 ==> (#[trigger] m[key_index(m, key)]).0 == key && (forall|l: int|
            0 <= l < key_index(m, key) ==> (#[trigger] m[l]).0 != key),
    decreases m.len(),
{
    if m.len() == 0 {
        assert(!has_key(m, key));
    } else if m[0].0 == key {
    } else {
        let rest = m.drop_first();
        lemma_key_index(rest, key);
        if key_index(rest, key) == -1 {
            if has_key(m, key) {
                let k = choose|k: int| 0 <= k < m.len() && (#[trigger] m[k]).0 == key;
                assert(rest[k - 1].0 == key);
                assert(has_key(rest, key));
            }
        } else {
            assert(m[key_index(m, key)] == rest[key_index(rest, key)]);
            assert forall|l: int| 0 <= l < key_index(m, key) implies (#[trigger] m[l]).0 != key by {
                if l > 0 {
                    assert(m[l] == rest[l - 1]);
                }
            }
        }
    }
}

} // verus!
