//! AppendSubsection: append a block under an existing section of a document.

use vstd::prelude::*;

use crate::documents::{self, with_subsection};
use crate::error::{DomainError, DomainFailure};
use crate::events::SectionAppended;
use crate::journal::document_lookup;
use crate::results::{writes_view, CommandResult, VaultWrite, WriteView};
use crate::types::{block_lookup, Vault, VaultView};
use crate::use_cases::{outcome, push_write};

verus! {

pub open spec fn append_subsection_writes(
    v: VaultView,
    document_id: u128,
    section_block_id: u128,
    block_id: u128,
) -> Result<Seq<WriteView>, DomainFailure> {
    match document_lookup(v.documents, document_id) {
        None => Err(DomainFailure::DocumentNotFound(document_id)),
        Some(d) => if block_lookup(v.blocks, block_id) is None {
            Err(DomainFailure::BlockNotFound(block_id))
        } else {
            match with_subsection(d, section_block_id, block_id) {
                None => Err(DomainFailure::SectionNotFound(section_block_id)),
                Some(u) => Ok(seq![WriteView::WriteDocument(u)]),
            }
        },
    }
}

/// Append a block, which must be in the heap, as a subsection (depth 3) of the section
/// whose block is `section_block_id`.
pub fn execute(vault: &Vault, document_id: u128, section_block_id: u128, block_id: u128) -> (r: Result<
    CommandResult<SectionAppended>,
    DomainError,
>)
    ensures
        outcome(r) == append_subsection_writes(vault@, document_id, section_block_id, block_id),
        r matches Ok(c) ==> c.event.document_id == document_id && c.event.block_id == block_id
            && c.event.depth == 2,
{
    let doc = match vault.get_document(document_id) {
        Some(d) => d,
        None => {
            return Err(DomainError::DocumentNotFound(document_id));
        },
    };
    if vault.get_block(block_id).is_none() {
        return Err(DomainError::BlockNotFound(block_id));
    }
    let updated = match documents::append_subsection(doc, section_block_id, block_id) {
        Some(d) => d,
        None => {
            return Err(DomainError::SectionNotFound(section_block_id));
        },
    };
    let ghost u = updated@;
    let mut writes: Vec<VaultWrite> = Vec::new();
    assert(writes_view(writes@) =~= Seq::<WriteView>::empty());
    push_write(&mut writes, VaultWrite::WriteDocument(updated));
    assert(writes_view(writes@) =~= seq![WriteView::WriteDocument(u)]);
    Ok(CommandResult { writes, event: SectionAppended { document_id, block_id, depth: 2 } })
}

} // verus!
