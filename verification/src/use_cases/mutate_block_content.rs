//! MutateBlockContent: replace a block's content.

use vstd::prelude::*;

use crate::blocks::{self, content_spec};
use crate::error::{DomainError, DomainFailure};
use crate::events::BlockContentMutated;
use crate::results::{writes_view, CommandResult, VaultWrite, WriteView};
use crate::time::Timestamp;
use crate::types::{block_lookup, ts_view, Vault, VaultView};
use crate::use_cases::{outcome, push_write};

verus! {

pub open spec fn mutate_block_content_writes(v: VaultView, now: (i64, u32), id: u128, content: Seq<char>) -> Result<
    Seq<WriteView>,
    DomainFailure,
> {
    match block_lookup(v.blocks, id) {
        None => Err(DomainFailure::BlockNotFound(id)),
        Some(b) => match content_spec(b, content, now) {
            Err(e) => Err(e),
            Ok(u) => Ok(seq![WriteView::WriteBlock(u)]),
        },
    }
}

/// Replace a block's content, refusing content with a heading outside a fenced code
/// block.
pub fn execute(vault: &Vault, now: Timestamp, block_id: u128, content: &str) -> (r: Result<
    CommandResult<BlockContentMutated>,
    DomainError,
>)
    ensures
        outcome(r) == mutate_block_content_writes(vault@, ts_view(now), block_id, content@),
        r matches Ok(c) ==> c.event.block_id == block_id,
{
    let block = match vault.get_block(block_id) {
        Some(b) => b,
        None => {
            return Err(DomainError::BlockNotFound(block_id));
        },
    };
    let updated = match blocks::apply_content(block, content, now) {
        Ok(b) => b,
        Err(e) => {
            return Err(e);
        },
    };
    let ghost u = updated@;
    let mut writes: Vec<VaultWrite> = Vec::new();
    assert(writes_view(writes@) =~= Seq::<WriteView>::empty());
    push_write(&mut writes, VaultWrite::WriteBlock(updated));
    assert(writes_view(writes@) =~= seq![WriteView::WriteBlock(u)]);
    Ok(CommandResult { writes, event: BlockContentMutated { block_id } })
}

} // verus!
