//! Commands: the requests a client makes of a vault.

use vstd::prelude::*;

verus! {

/// Create a new block with the given name and content.
#[derive(Debug)]
pub struct AddBlock {
    pub id: u128,
    pub name: String,
    pub content: String,
}

/// Change a block's name; references in other blocks follow.
#[derive(Debug)]
pub struct RenameBlock {
    pub block_id: u128,
    pub new_name: String,
}

/// Replace a block's content body.
#[derive(Debug)]
pub struct MutateBlockContent {
    pub block_id: u128,
    pub content: String,
}

/// Delete a block, rejected if incoming edges exist.
#[derive(Debug)]
pub struct DeleteBlockSafe {
    pub block_id: u128,
}

/// Delete a block unconditionally, removing all its edges.
#[derive(Debug)]
pub struct DeleteBlockCascade {
    pub block_id: u128,
}

/// Create a new document rooted at the given block.
#[derive(Debug)]
pub struct AddDocument {
    pub id: u128,
    pub root: u128,
}

/// Append a block as a top-level section (depth 2) of a document.
#[derive(Debug)]
pub struct AppendSection {
    pub document_id: u128,
    pub block_id: u128,
}

/// Append a block as a subsection (depth 3) under an existing section.
#[derive(Debug)]
pub struct AppendSubsection {
    pub document_id: u128,
    pub section_block_id: u128,
    pub block_id: u128,
}

/// Remove a top-level section from a document.
#[derive(Debug)]
pub struct RemoveSection {
    pub document_id: u128,
    pub block_id: u128,
}

/// Reorder the top-level sections of a document.
#[derive(Debug)]
pub struct ReorderSections {
    pub document_id: u128,
    pub section_order: Vec<u128>,
}

/// Delete a document definition. Blocks and the graph are not affected.
#[derive(Debug)]
pub struct DeleteDocument {
    pub document_id: u128,
}

/// Create a directed edge between two blocks.
#[derive(Debug)]
pub struct AddEdge {
    pub id: u128,
    pub source: u128,
    pub target: u128,
}

/// Remove an edge from the reference graph.
#[derive(Debug)]
pub struct RemoveEdge {
    pub edge_id: u128,
}

/// Envelope for dispatching any command.
#[derive(Debug)]
pub enum Command {
    AddBlock(AddBlock),
    RenameBlock(RenameBlock),
    MutateBlockContent(MutateBlockContent),
    DeleteBlockSafe(DeleteBlockSafe),
    DeleteBlockCascade(DeleteBlockCascade),
    AddDocument(AddDocument),
    AppendSection(AppendSection),
    AppendSubsection(AppendSubsection),
    RemoveSection(RemoveSection),
    ReorderSections(ReorderSections),
    DeleteDocument(DeleteDocument),
    AddEdge(AddEdge),
    RemoveEdge(RemoveEdge),
}

} // verus!
