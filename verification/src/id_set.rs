use vstd::prelude::*;
use crate::key::Key;
use std::collections::BTreeMap;

verus! {

broadcast use vstd::laws_cmp::group_laws_cmp;

/// The entity indices captured during an iteration, grouped by the key of the
/// bucket they belong to.
pub struct IdSet(BTreeMap<u64, Vec<u32>>);

impl View for IdSet {
    type V = Map<Key, Seq<u32>>;

    closed spec fn view(&self) -> Map<Key, Seq<u32>> {
        Map::new(|k: Key| self.0@.contains_key(k.bits()), |k: Key| self.0@[k.bits()]@)
    }
}

impl IdSet {
    /// An empty set.
    pub fn new() -> (r: IdSet)
        ensures
            r@ == Map::<Key, Seq<u32>>::empty(),
    {
        let r = IdSet(BTreeMap::new());
        assert(r@ =~= Map::<Key, Seq<u32>>::empty());
        r
    }

    /// Records `vec` as the indices captured in the bucket of `key`, replacing
    /// what was recorded for it before.
    pub fn insert(&mut self, key: Key, vec: Vec<u32>)
        ensures
            final(self)@ == old(self)@.insert(key, vec@),
    {
        let ghost v = vec@;
        self.0.insert(key.to_bits(), vec);
        proof {
            assert forall|k: Key| #[trigger] final(self)@.contains_key(k) == old(self)@.insert(
                key,
                v,
            ).contains_key(k) by {
                Key::lemma_bits_injective(k, key);
            }
            assert forall|k: Key| #[trigger] final(self)@.contains_key(k) implies final(self)@[k]
                == old(self)@.insert(key, v)[k] by {
                Key::lemma_bits_injective(k, key);
            }
            assert(final(self)@ =~= old(self)@.insert(key, v));
        }
    }

    /// The indices recorded for the bucket of `key`, if any.
    pub fn get(&self, key: Key) -> (r: Option<&Vec<u32>>)
        ensures
            match r {
                Some(v) => self@.contains_key(key) && v@ == self@[key],
                None => !self@.contains_key(key),
            },
    {
        self.0.get(&key.to_bits())
    }
}

} // verus!
