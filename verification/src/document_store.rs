//! The vault as a document store. Kept apart from the other store traits so that
//! `get` names one trait method here.

use vstd::prelude::*;

use crate::ports::{document_has_id, opt_document_view, DocumentStore};
use crate::text::first_where;
use crate::types::{Document, DocumentView, Vault};

verus! {

impl DocumentStore for Vault {
    fn get(&self, id: u128) -> (r: Option<Document>)
        ensures
            opt_document_view(r) == first_where(self@.documents, document_has_id(id)),
    {
        self.get_document(id)
    }

    fn list_ids(&self) -> (r: Vec<u128>)
        ensures
            r@ == self@.documents.map_values(|d: DocumentView| d.id),
    {
        self.document_ids()
    }
}

} // verus!
