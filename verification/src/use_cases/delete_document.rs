//! DeleteDocument: delete a document definition; blocks and the graph are untouched.

use vstd::prelude::*;

use crate::error::{DomainError, DomainFailure};
use crate::events::DocumentDeleted;
use crate::journal::{
    apply_write, apply_writes, document_lookup, lemma_apply_one, lemma_write_frame, look, Artifact,
};
use crate::use_cases::add_document::add_document_writes;
use crate::results::{writes_view, CommandResult, VaultWrite, WriteView};
use crate::types::{DocumentView, Vault, VaultView};
use crate::use_cases::{outcome, push_write};

verus! {

pub open spec fn delete_document_writes(v: VaultView, id: u128) -> Result<Seq<WriteView>, DomainFailure> {
    if document_lookup(v.documents, id) is None {
        Err(DomainFailure::DocumentNotFound(id))
    } else {
        Ok(seq![WriteView::DeleteDocument(id)])
    }
}

/// Delete a document; refused when there is none with that id.
pub fn execute(vault: &Vault, document_id: u128) -> (r: Result<CommandResult<DocumentDeleted>, DomainError>)
    ensures
        outcome(r) == delete_document_writes(vault@, document_id),
        r matches Ok(c) ==> c.event.document_id == document_id,
{
    if vault.get_document(document_id).is_none() {
        return Err(DomainError::DocumentNotFound(document_id));
    }
    let mut writes: Vec<VaultWrite> = Vec::new();
    assert(writes_view(writes@) =~= Seq::<WriteView>::empty());
    push_write(&mut writes, VaultWrite::DeleteDocument(document_id));
    assert(writes_view(writes@) =~= seq![WriteView::DeleteDocument(document_id)]);
    Ok(CommandResult { writes, event: DocumentDeleted { document_id } })
}


/// Deleting the document just added undoes the addition: every document lookup is as
/// before.
pub proof fn law_delete_undoes_add_document(v: VaultView, id: u128, root: u128, d: u128)
    requires
        add_document_writes(v, id, root) is Ok,
    ensures
        ({
            let added = apply_writes(v, add_document_writes(v, id, root)->Ok_0);
            &&& delete_document_writes(added, id) is Ok
            &&& look(apply_writes(added, delete_document_writes(added, id)->Ok_0), Artifact::Document(d))
                == look(v, Artifact::Document(d))
        }),
{
    let w = WriteView::WriteDocument(DocumentView { id, root, sections: Seq::empty() });
    let r = WriteView::DeleteDocument(id);
    lemma_apply_one(v, w);
    let added = apply_write(v, w);
    lemma_write_frame(v, w, Artifact::Document(id));
    assert(delete_document_writes(added, id) is Ok);
    lemma_apply_one(added, r);
    lemma_write_frame(added, r, Artifact::Document(d));
    lemma_write_frame(v, w, Artifact::Document(d));
}

} // verus!
