//! AppendSection: append a block as a top-level section of a document.

use vstd::prelude::*;

use crate::documents::{self, with_section};
use crate::error::{DomainError, DomainFailure};
use crate::events::SectionAppended;
use crate::journal::document_lookup;
use crate::results::{writes_view, CommandResult, VaultWrite, WriteView};
use crate::types::{block_lookup, Vault, VaultView};
use crate::use_cases::{outcome, push_write};

verus! {

pub open spec fn append_section_writes(v: VaultView, document_id: u128, block_id: u128) -> Result<
    Seq<WriteView>,
    DomainFailure,
> {
    match document_lookup(v.documents, document_id) {
        None => Err(DomainFailure::DocumentNotFound(document_id)),
        Some(d) => if block_lookup(v.blocks, block_id) is None {
            Err(DomainFailure::BlockNotFound(block_id))
        } else {
            Ok(seq![WriteView::WriteDocument(with_section(d, block_id))])
        },
    }
}

/// Append a block, which must be in the heap, as a section (depth 2) of a document.
pub fn execute(vault: &Vault, document_id: u128, block_id: u128) -> (r: Result<
    CommandResult<SectionAppended>,
    DomainError,
>)
    ensures
        outcome(r) == append_section_writes(vault@, document_id, block_id),
        r matches Ok(c) ==> c.event.document_id == document_id && c.event.block_id == block_id
            && c.event.depth == 1,
{
    let doc = match vault.get_document(document_id) {
        Some(d) => d,
        None => {
            return Err(DomainError::DocumentNotFound(document_id));
        },
    };
    if vault.get_block(block_id).is_none() {
        return Err(DomainError::BlockNotFound(block_id));
    }
    let updated = documents::append_section(doc, block_id);
    let ghost u = updated@;
    let mut writes: Vec<VaultWrite> = Vec::new();
    assert(writes_view(writes@) =~= Seq::<WriteView>::empty());
    push_write(&mut writes, VaultWrite::WriteDocument(updated));
    assert(writes_view(writes@) =~= seq![WriteView::WriteDocument(u)]);
    Ok(CommandResult { writes, event: SectionAppended { document_id, block_id, depth: 1 } })
}

} // verus!
