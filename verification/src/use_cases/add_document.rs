//! AddDocument: create an empty document rooted at a block.

use vstd::prelude::*;

use crate::documents;
use crate::error::{DomainError, DomainFailure};
use crate::events::DocumentAdded;
use crate::journal::document_lookup;
use crate::results::{writes_view, CommandResult, VaultWrite, WriteView};
use crate::types::{block_lookup, DocumentView, Vault, VaultView};
use crate::use_cases::{outcome, push_write};

verus! {

pub open spec fn add_document_writes(v: VaultView, id: u128, root: u128) -> Result<Seq<WriteView>, DomainFailure> {
    if block_lookup(v.blocks, root) is None {
        Err(DomainFailure::RootNotInHeap(root))
    } else if document_lookup(v.documents, id) is Some {
        Err(DomainFailure::DuplicateId(id))
    } else {
        Ok(seq![WriteView::WriteDocument(DocumentView { id, root, sections: Seq::empty() })])
    }
}

/// Create a new document rooted at `root`, which must be in the heap.
pub fn execute(vault: &Vault, id: u128, root: u128) -> (r: Result<CommandResult<DocumentAdded>, DomainError>)
    ensures
        outcome(r) == add_document_writes(vault@, id, root),
        r matches Ok(c) ==> c.event.document_id == id && c.event.root_block_id == root,
{
    if vault.get_block(root).is_none() {
        return Err(DomainError::RootNotInHeap(root));
    }
    if vault.get_document(id).is_some() {
        return Err(DomainError::DuplicateId(id));
    }
    let doc = documents::create(id, root);
    let mut writes: Vec<VaultWrite> = Vec::new();
    assert(writes_view(writes@) =~= Seq::<WriteView>::empty());
    push_write(&mut writes, VaultWrite::WriteDocument(doc));
    assert(writes_view(writes@) =~= seq![
        WriteView::WriteDocument(DocumentView { id, root, sections: Seq::empty() }),
    ]);
    Ok(CommandResult { writes, event: DocumentAdded { document_id: id, root_block_id: root } })
}

} // verus!
