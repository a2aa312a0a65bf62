//! ReorderSections: reorder a document's top-level sections.

use vstd::prelude::*;

use crate::documents::{self, reordered};
use crate::error::{DomainError, DomainFailure};
use crate::events::SectionsReordered;
use crate::journal::document_lookup;
use crate::results::{writes_view, CommandResult, VaultWrite, WriteView};
use crate::types::{Vault, VaultView};
use crate::use_cases::{outcome, push_write};

verus! {

pub open spec fn reorder_sections_writes(v: VaultView, document_id: u128, order: Seq<u128>) -> Result<
    Seq<WriteView>,
    DomainFailure,
> {
    match document_lookup(v.documents, document_id) {
        None => Err(DomainFailure::DocumentNotFound(document_id)),
        Some(d) => match reordered(d, order) {
            None => Err(DomainFailure::InvalidSectionOrder),
            Some(u) => Ok(seq![WriteView::WriteDocument(u)]),
        },
    }
}

/// Put a document's sections in `section_order`, which must name exactly the blocks of
/// the current sections.
pub fn execute(vault: &Vault, document_id: u128, section_order: Vec<u128>) -> (r: Result<
    CommandResult<SectionsReordered>,
    DomainError,
>)
    ensures
        outcome(r) == reorder_sections_writes(vault@, document_id, section_order@),
        r matches Ok(c) ==> c.event.document_id == document_id,
{
    let doc = match vault.get_document(document_id) {
        Some(d) => d,
        None => {
            return Err(DomainError::DocumentNotFound(document_id));
        },
    };
    let updated = match documents::reorder_sections(doc, section_order) {
        Some(d) => d,
        None => {
            return Err(DomainError::InvalidSectionOrder);
        },
    };
    let ghost u = updated@;
    let mut writes: Vec<VaultWrite> = Vec::new();
    assert(writes_view(writes@) =~= Seq::<WriteView>::empty());
    push_write(&mut writes, VaultWrite::WriteDocument(updated));
    assert(writes_view(writes@) =~= seq![WriteView::WriteDocument(u)]);
    Ok(CommandResult { writes, event: SectionsReordered { document_id } })
}

} // verus!
