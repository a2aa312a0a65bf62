//! Domain events: what a successful command did.

use vstd::prelude::*;

verus! {

/// A block was created and is ready to persist.
#[derive(Debug)]
pub struct BlockAdded {
    pub block_id: u128,
    pub name: String,
}

/// A block was renamed; `refs_updated` references in other blocks followed it.
#[derive(Debug)]
pub struct BlockRenamed {
    pub block_id: u128,
    pub old_name: String,
    pub new_name: String,
    pub refs_updated: usize,
}

/// A block's content body was replaced.
#[derive(Debug)]
pub struct BlockContentMutated {
    pub block_id: u128,
}

/// A block was deleted (safe or cascade).
#[derive(Debug)]
pub struct BlockDeleted {
    pub block_id: u128,
    pub edges_removed: usize,
    pub inline_refs_reverted: usize,
}

/// A document definition was created.
#[derive(Debug)]
pub struct DocumentAdded {
    pub document_id: u128,
    pub root_block_id: u128,
}

/// A section (depth 1) or subsection (depth 2) was appended to a document.
#[derive(Debug)]
pub struct SectionAppended {
    pub document_id: u128,
    pub block_id: u128,
    pub depth: u8,
}

/// A section was removed from a document.
#[derive(Debug)]
pub struct SectionRemoved {
    pub document_id: u128,
    pub block_id: u128,
}

/// A document's sections were reordered.
#[derive(Debug)]
pub struct SectionsReordered {
    pub document_id: u128,
}

/// A document definition was deleted.
#[derive(Debug)]
pub struct DocumentDeleted {
    pub document_id: u128,
}

/// A directed edge was created in the reference graph.
#[derive(Debug)]
pub struct EdgeAdded {
    pub edge_id: u128,
    pub source: u128,
    pub target: u128,
}

/// An edge was removed from the reference graph.
#[derive(Debug)]
pub struct EdgeRemoved {
    pub edge_id: u128,
}

/// A vault was opened and its checksum checked.
#[derive(Debug)]
pub struct VaultOpened {
    pub vault_id: u128,
    pub checksum_valid: bool,
}

/// The stored checksum does not match the recomputed one: the vault was modified
/// outside the application since the last save.
#[derive(Debug)]
pub struct ChecksumMismatch {
    pub expected: String,
    pub actual: String,
}

/// A new vault was initialized.
#[derive(Debug)]
pub struct VaultInitialized {
    pub vault_id: u128,
}

/// Envelope for all domain events.
#[derive(Debug)]
pub enum Event {
    BlockAdded(BlockAdded),
    BlockRenamed(BlockRenamed),
    BlockContentMutated(BlockContentMutated),
    BlockDeleted(BlockDeleted),
    DocumentAdded(DocumentAdded),
    SectionAppended(SectionAppended),
    SectionRemoved(SectionRemoved),
    SectionsReordered(SectionsReordered),
    DocumentDeleted(DocumentDeleted),
    EdgeAdded(EdgeAdded),
    EdgeRemoved(EdgeRemoved),
    VaultOpened(VaultOpened),
    ChecksumMismatch(ChecksumMismatch),
    VaultInitialized(VaultInitialized),
}

} // verus!
