//! RemoveSection: remove a top-level section from a document.

use vstd::prelude::*;

use crate::documents::{self, without_section};
use crate::error::{DomainError, DomainFailure};
use crate::events::SectionRemoved;
use crate::journal::document_lookup;
use crate::results::{writes_view, CommandResult, VaultWrite, WriteView};
use crate::types::{Vault, VaultView};
use crate::use_cases::{outcome, push_write};

verus! {

pub open spec fn remove_section_writes(v: VaultView, document_id: u128, block_id: u128) -> Result<
    Seq<WriteView>,
    DomainFailure,
> {
    match document_lookup(v.documents, document_id) {
        None => Err(DomainFailure::DocumentNotFound(document_id)),
        Some(d) => match without_section(d, block_id) {
            None => Err(DomainFailure::SectionNotFound(block_id)),
            Some(u) => Ok(seq![WriteView::WriteDocument(u)]),
        },
    }
}

/// Remove the section whose block is `block_id` from a document.
pub fn execute(vault: &Vault, document_id: u128, block_id: u128) -> (r: Result<
    CommandResult<SectionRemoved>,
    DomainError,
>)
    ensures
        outcome(r) == remove_section_writes(vault@, document_id, block_id),
        r matches Ok(c) ==> c.event.document_id == document_id && c.event.block_id == block_id,
{
    let doc = match vault.get_document(document_id) {
        Some(d) => d,
        None => {
            return Err(DomainError::DocumentNotFound(document_id));
        },
    };
    let updated = match documents::remove_section(doc, block_id) {
        Some(d) => d,
        None => {
            return Err(DomainError::SectionNotFound(block_id));
        },
    };
    let ghost u = updated@;
    let mut writes: Vec<VaultWrite> = Vec::new();
    assert(writes_view(writes@) =~= Seq::<WriteView>::empty());
    push_write(&mut writes, VaultWrite::WriteDocument(updated));
    assert(writes_view(writes@) =~= seq![WriteView::WriteDocument(u)]);
    Ok(CommandResult { writes, event: SectionRemoved { document_id, block_id } })
}

} // verus!
