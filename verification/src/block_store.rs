//! The vault as a block store. Kept apart from the other store traits so that
//! `get` names one trait method here.

use vstd::prelude::*;

use crate::ports::{blocks_link_target, blocks_refs_name, opt_block_view, BlockStore};
use crate::text::keep;
use crate::types::{block_lookup, blocks_view, Block, Vault};

verus! {

impl BlockStore for Vault {
    fn get(&self, id: u128) -> (r: Option<Block>)
        ensures
            opt_block_view(r) == block_lookup(self@.blocks, id),
    {
        self.get_block(id)
    }

    fn list(&self) -> (r: Vec<Block>)
        ensures
            blocks_view(r@) == self@.blocks,
    {
        self.all_blocks()
    }

    fn find_by_ref(&self, name: &str) -> (r: Vec<Block>)
        ensures
            blocks_view(r@) == keep(self@.blocks, blocks_refs_name(name@)),
    {
        self.blocks_referencing(name)
    }

    fn find_by_target(&self, target: u128) -> (r: Vec<Block>)
        ensures
            blocks_view(r@) == keep(self@.blocks, blocks_link_target(target)),
    {
        self.blocks_linking(target)
    }
}

} // verus!
