//! AddBlock: create a block; its name is stored in NFC form.

use vstd::prelude::*;

use crate::blocks::{self, create_spec};
use crate::error::{DomainError, DomainFailure};
use crate::events::BlockAdded;
use crate::format::{nfc, normalize_nfc};
use crate::results::{CommandResult, VaultWrite, WriteView};
use crate::time::Timestamp;
use crate::journal::{apply_write, apply_writes, lemma_apply_one, lemma_apply_writes_concat, lemma_write_frame, look, Artifact, Holding};
use crate::types::{block_lookup, ts_view, BlockView, Vault, VaultView};
use crate::use_cases::{conflicting_block, name_taken_by_other, outcome};

verus! {

/// The writes of adding a block, or why it is refused: another block's name matches
/// ignoring case, the id is taken, or the name or content breaks a block rule.
pub open spec fn add_block_writes(
    v: VaultView,
    now: (i64, u32),
    id: u128,
    name: Seq<char>,
    content: Seq<char>,
) -> Result<Seq<WriteView>, DomainFailure> {
    let n = nfc(name);
    match name_taken_by_other(v, n, id) {
        Some(other) => Err(DomainFailure::NameConflict(n, other)),
        None => if block_lookup(v.blocks, id) is Some {
            Err(DomainFailure::DuplicateId(id))
        } else {
            match create_spec(id, n, content, now) {
                Err(e) => Err(e),
                Ok(b) => Ok(seq![WriteView::WriteBlock(b), WriteView::SetName { name: n, id }]),
            }
        },
    }
}

/// Create a new block, refusing names already used (ignoring case) and ids already
/// taken. Writes the block and its name-index entry.
pub fn execute(vault: &Vault, now: Timestamp, id: u128, name: &str, content: &str) -> (r: Result<
    CommandResult<BlockAdded>,
    DomainError,
>)
    ensures
        outcome(r) == add_block_writes(vault@, ts_view(now), id, name@, content@),
        r matches Ok(c) ==> c.event.block_id == id && c.event.name@ == nfc(name@),
{
    let name = normalize_nfc(name);
    if let Some(existing) = conflicting_block(vault, name.as_str(), id) {
        return Err(DomainError::NameConflict(name, existing));
    }
    if vault.get_block(id).is_some() {
        return Err(DomainError::DuplicateId(id));
    }
    let block = match blocks::create(id, name.as_str(), content, now) {
        Ok(b) => b,
        Err(e) => {
            return Err(e);
        },
    };
    let mut writes: Vec<VaultWrite> = Vec::new();
    assert(crate::results::writes_view(writes@) =~= Seq::<WriteView>::empty());
    let ghost block_view = block@;
    crate::use_cases::push_write(&mut writes, VaultWrite::WriteBlock(block));
    crate::use_cases::push_write(&mut writes, VaultWrite::SetName { name: name.clone(), id });
    assert(crate::results::writes_view(writes@) =~= seq![
        WriteView::WriteBlock(block_view),
        WriteView::SetName { name: name@, id },
    ]);
    Ok(CommandResult { writes, event: BlockAdded { block_id: id, name } })
}

/// A block added is in the heap afterwards, under its id, and its NFC name resolves to
/// it.
pub proof fn law_added_block_resolves(
    v: VaultView,
    now: (i64, u32),
    id: u128,
    name: Seq<char>,
    content: Seq<char>,
)
    requires
        add_block_writes(v, now, id, name, content) is Ok,
    ensures
        ({
            let after = apply_writes(v, add_block_writes(v, now, id, name, content)->Ok_0);
            &&& look(after, Artifact::Block(id)) == Holding::Block(
                Some(BlockView { id, name: nfc(name), content, created: now, modified: now }),
            )
            &&& look(after, Artifact::Name(nfc(name))) == Holding::Name(Some(id))
        }),
{
    let n = nfc(name);
    let b = BlockView { id, name: n, content, created: now, modified: now };
    let w1 = WriteView::WriteBlock(b);
    let w2 = WriteView::SetName { name: n, id };
    lemma_apply_one(v, w1);
    lemma_apply_one(apply_write(v, w1), w2);
    lemma_apply_writes_concat(v, seq![w1], seq![w2]);
    assert(seq![w1] + seq![w2] =~= seq![w1, w2]);
    lemma_write_frame(v, w1, Artifact::Block(id));
    lemma_write_frame(v, w1, Artifact::Name(n));
    lemma_write_frame(apply_write(v, w1), w2, Artifact::Block(id));
    lemma_write_frame(apply_write(v, w1), w2, Artifact::Name(n));
}

} // verus!
