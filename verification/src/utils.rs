//! A map turned around.

use std::collections::HashMap;
use std::hash::Hash;
use vstd::prelude::*;
use vstd::std_specs::hash::obeys_key_model;
use vstd::std_specs::iter::IteratorSpec;

verus! {

/// Turns a map around: each value of `hash_map` becomes a key, and is sent to
/// a key that `hash_map` sends to it.
///
/// For a one-to-one map that key is the only one, and the result is the
/// inverse map.
pub fn reverse_hash_map<T, E>(hash_map: &HashMap<T, E>) -> (reversed_map: HashMap<E, T>) where
    T: Eq,
    T: Hash,
    T: Copy,
    E: Eq,
    E: Hash,
    E: Copy,

    requires
        obeys_key_model::<T>(),
        obeys_key_model::<E>(),
    ensures
        reversed_map@.dom() == hash_map@.values(),
        forall|value: E| #[trigger]
            reversed_map@.contains_key(value) ==> hash_map@.contains_pair(
                reversed_map@[value],
                value,
            ),
        hash_map@.is_injective() ==> reversed_map@ == hash_map@.invert(),
{
    broadcast use vstd::std_specs::hash::group_hash_axioms;

    let mut reversed_map: HashMap<E, T> = HashMap::new();

    let ghost order = vstd::std_specs::hash::spec_keys_iter(hash_map).remaining().unref();
    for key in keys: hash_map.keys()
        invariant
            obeys_key_model::<T>(),
            obeys_key_model::<E>(),
            order == keys.seq().unref(),
            order.to_set() == hash_map@.dom(),
            forall|value: E| #[trigger]
                reversed_map@.contains_key(value) ==> hash_map@.contains_pair(
                    reversed_map@[value],
                    value,
                ),
            forall|i: int|
                0 <= i < keys.index() ==> reversed_map@.contains_key(hash_map@[#[trigger] order[i]]),
    {
        proof {
            assert(order[keys.index()] == *key);
            assert(order.to_set().contains(*key));
        }
        let value = hash_map.get(key).unwrap();
        reversed_map.insert(*value, *key);
    }
    proof {
        assert forall|value: E| hash_map@.values().contains(value) implies reversed_map@.dom().contains(
            value,
        ) by {
            let k = choose|k: T| hash_map@.contains_key(k) && hash_map@[k] == value;
            assert(order.to_set().contains(k));
            let i = choose|i: int| 0 <= i < order.len() && order[i] == k;
            assert(reversed_map@.contains_key(hash_map@[order[i]]));
        }
        assert(reversed_map@.dom() =~= hash_map@.values());
        if hash_map@.is_injective() {
            assert(reversed_map@ =~= hash_map@.invert());
        }
    }
    reversed_map
}

} // verus!
