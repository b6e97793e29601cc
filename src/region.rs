//! A batch of block identifiers keyed by block coordinate, fetched from the
//! world in one pass and then consulted without touching the world again.
use std::collections::HashMap;
use vstd::prelude::*;

use crate::units::{BlockCoords, BlockID, block_key, block_key_of, lemma_block_key_injective};

verus! {

broadcast use vstd::std_specs::hash::group_hash_axioms;

/// A mapping from block coordinate to block identifier.
pub struct BlockRegion {
    blocks: HashMap<u128, BlockID>,
}

impl BlockRegion {
    /// The identifier recorded for `b`, if any.
    pub closed spec fn spec_get(&self, b: BlockCoords) -> Option<BlockID> {
        if self.blocks@.contains_key(block_key(b) as u128) {
            Some(self.blocks@[block_key(b) as u128])
        } else {
            None
        }
    }

    /// An empty mapping.
    pub fn new() -> (r: Self)
        ensures
            forall|b: BlockCoords| r.spec_get(b).is_none(),
    {
        proof {
            assert(vstd::std_specs::hash::obeys_key_model::<u128>());
        }
        BlockRegion { blocks: HashMap::new() }
    }

    /// Records `id` for `b`, replacing what was recorded for it.
    pub fn insert(&mut self, b: BlockCoords, id: BlockID)
        ensures
            forall|c: BlockCoords|
                #[trigger] final(self).spec_get(c) == if c == b {
                    Some(id)
                } else {
                    old(self).spec_get(c)
                },
    {
        let k = block_key_of(b);
        self.blocks.insert(k, id);
        proof {
            assert forall|c: BlockCoords|
                #[trigger] self.spec_get(c) == if c == b {
                    Some(id)
                } else {
                    old(self).spec_get(c)
                } by {
                lemma_block_key_injective(b, c);
            }
        }
    }

    /// The identifier recorded for `b`, if any.
    pub fn get(&self, b: BlockCoords) -> (r: Option<BlockID>)
        ensures
            r == self.spec_get(b),
    {
        let k = block_key_of(b);
        match self.blocks.get(&k) {
            Some(id) => Some(*id),
            None => None,
        }
    }
}

} // verus!
