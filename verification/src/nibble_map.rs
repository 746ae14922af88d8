//! A hash map keyed by sequences of nibbles.
use vstd::hash_map::StringHashMap;
use vstd::prelude::*;

use crate::nibbles::{all_nibbles, hex_of, hex_string, lemma_hex_injective};

verus! {

/// A map from sequences of nibbles to values. Each key is held as its hexadecimal text.
#[verifier::reject_recursive_types(V)]
pub struct NibbleMap<V> {
    by_text: StringHashMap<V>,
}

impl<V> View for NibbleMap<V> {
    type V = Map<Seq<u8>, V>;

    closed spec fn view(&self) -> Map<Seq<u8>, V> {
        Map::new(
            |key: Seq<u8>| all_nibbles(key) && self.by_text@.contains_key(hex_of(key)),
            |key: Seq<u8>| self.by_text@[hex_of(key)],
        )
    }
}

impl<V> NibbleMap<V> {
    /// The map without entries.
    pub fn new() -> (map: Self)
        ensures
            map@ == Map::<Seq<u8>, V>::empty(),
    {
        let map = NibbleMap { by_text: StringHashMap::new() };
        assert(map@ =~= Map::<Seq<u8>, V>::empty());
        map
    }

    /// Sets the value of `key`.
    pub fn insert(&mut self, key: &[u8], value: V)
        requires
            all_nibbles(key@),
        ensures
            final(self)@ == old(self)@.insert(key@, value),
    {
        let text: String = hex_string(key);
        self.by_text.insert(text, value);
        assert(self@ =~= old(self)@.insert(key@, value)) by {
            assert forall|k: Seq<u8>| all_nibbles(k) && hex_of(k) == hex_of(key@) implies k
                == key@ by {
                lemma_hex_injective(k, key@);
            }
        }
    }

    /// The value of `key`, if it has one.
    pub fn get(&self, key: &[u8]) -> (value: Option<&V>)
        requires
            all_nibbles(key@),
        ensures
            match value {
                Some(v) => self@.contains_key(key@) && *v == self@[key@],
                None => !self@.contains_key(key@),
            },
    {
        let text: String = hex_string(key);
        self.by_text.get(text.as_str())
    }
}

} // verus!
