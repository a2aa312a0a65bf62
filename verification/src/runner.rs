//! The use-case surface: built once from the ports at the composition root.

use vstd::prelude::*;

use crate::blocks::{capped, ref_total};
use crate::error::DomainError;
use crate::events::{
    BlockAdded, BlockContentMutated, BlockDeleted, BlockRenamed, DocumentAdded, DocumentDeleted,
    EdgeAdded, EdgeRemoved, SectionAppended, SectionRemoved, SectionsReordered,
};
use crate::format::nfc;
use crate::ports::{blocks_refs_name, edge_touches, Clock, VaultPorts};
use crate::text::keep;
use crate::results::CommandResult;
use crate::types::{block_lookup, Vault};
use crate::use_cases::{
    add_block, add_document, add_edge, append_section, append_subsection, delete_block_cascade,
    delete_block_safe, delete_document, mutate_block_content, outcome, remove_edge,
    remove_section, rename_block, reorder_sections,
};
use crate::use_cases::delete_block_safe::{link_total, linking};

verus! {

/// Use cases over injected ports. Commands that stamp blocks read the time from the
/// ports' clock; what they return is stated for whatever time it gave.
pub struct UseCases<'a, C> {
    ports: VaultPorts<'a, C>,
}

impl<'a, C: Clock> UseCases<'a, C> {
    pub closed spec fn vault(&self) -> &'a Vault {
        self.ports.vault
    }

    pub fn new(ports: VaultPorts<'a, C>) -> (r: Self)
        ensures
            r.vault() == ports.vault,
    {
        UseCases { ports }
    }

    pub fn add_block(&self, id: u128, name: &str, content: &str) -> (r: Result<
        CommandResult<BlockAdded>,
        DomainError,
    >)
        ensures
            exists|t: (i64, u32)|
                outcome(r) == add_block::add_block_writes(self.vault()@, t, id, name@, content@),
            r matches Ok(c) ==> c.event.block_id == id && c.event.name@ == nfc(name@),
    {
        let now = self.ports.clock.now();
        add_block::execute(self.ports.vault, now, id, name, content)
    }
    pub fn rename_block(&self, block_id: u128, new_name: &str) -> (r: Result<
        CommandResult<BlockRenamed>,
        DomainError,
    >)
        ensures
            exists|t: (i64, u32)|
                outcome(r) == rename_block::rename_block_writes(self.vault()@, t, block_id, new_name@),
            r matches Ok(c) ==> {
                &&& block_lookup(self.vault()@.blocks, block_id) matches Some(b)
                &&& c.event.block_id == block_id
                &&& c.event.old_name@ == b.name
                &&& c.event.new_name@ == nfc(new_name@)
                &&& c.event.refs_updated == capped(
                    ref_total(keep(self.vault()@.blocks, blocks_refs_name(b.name)), b.name),
                )
            },
    {
        let now = self.ports.clock.now();
        rename_block::execute(self.ports.vault, now, block_id, new_name)
    }

    pub fn mutate_block_content(&self, block_id: u128, content: &str) -> (r: Result<
        CommandResult<BlockContentMutated>,
        DomainError,
    >)
        ensures
            exists|t: (i64, u32)|
                outcome(r) == mutate_block_content::mutate_block_content_writes(
                    self.vault()@,
                    t,
                    block_id,
                    content@,
                ),
            r matches Ok(c) ==> c.event.block_id == block_id,
    {
        let now = self.ports.clock.now();
        mutate_block_content::execute(self.ports.vault, now, block_id, content)
    }

    pub fn delete_block_safe(&self, block_id: u128) -> (r: Result<CommandResult<BlockDeleted>, DomainError>)
        requires
            block_lookup(self.vault()@.blocks, block_id) is Some && crate::text::keep(
                self.vault()@.edges,
                crate::ports::edge_into(block_id),
            ).len() == 0 ==> delete_block_safe::links_revertible_to(self.vault()@, block_id),
        ensures
            exists|t: (i64, u32)|
                outcome(r) == delete_block_safe::delete_block_safe_writes(self.vault()@, t, block_id),
            r matches Ok(c) ==> {
                &&& c.event.block_id == block_id
                &&& c.event.edges_removed == keep(self.vault()@.edges, edge_touches(block_id)).len()
                &&& c.event.inline_refs_reverted == capped(
                    link_total(linking(self.vault()@, block_id), block_id),
                )
            },
    {
        let now = self.ports.clock.now();
        delete_block_safe::execute(self.ports.vault, now, block_id)
    }

    pub fn delete_block_cascade(&self, block_id: u128) -> (r: Result<
        CommandResult<BlockDeleted>,
        DomainError,
    >)
        ensures
            exists|t: (i64, u32)|
                outcome(r) == delete_block_cascade::delete_block_cascade_writes(
                    self.vault()@,
                    t,
                    block_id,
                ),
            r matches Ok(c) ==> {
                &&& block_lookup(self.vault()@.blocks, block_id) matches Some(b)
                &&& c.event.block_id == block_id
                &&& c.event.edges_removed == keep(self.vault()@.edges, edge_touches(block_id)).len()
                &&& c.event.inline_refs_reverted == capped(
                    ref_total(keep(self.vault()@.blocks, blocks_refs_name(b.name)), b.name),
                )
            },
    {
        let now = self.ports.clock.now();
        delete_block_cascade::execute(self.ports.vault, now, block_id)
    }

    pub fn add_edge(&self, id: u128, source: u128, target: u128) -> (r: Result<
        CommandResult<EdgeAdded>,
        DomainError,
    >)
        ensures
            outcome(r) == add_edge::add_edge_writes(self.vault()@, id, source, target),
            r matches Ok(c) ==> c.event.edge_id == id && c.event.source == source && c.event.target == target,
    {
        add_edge::execute(self.ports.vault, id, source, target)
    }

    pub fn remove_edge(&self, edge_id: u128) -> (r: Result<CommandResult<EdgeRemoved>, DomainError>)
        ensures
            outcome(r) == remove_edge::remove_edge_writes(self.vault()@, edge_id),
            r matches Ok(c) ==> c.event.edge_id == edge_id,
    {
        remove_edge::execute(self.ports.vault, edge_id)
    }

    pub fn add_document(&self, id: u128, root: u128) -> (r: Result<
        CommandResult<DocumentAdded>,
        DomainError,
    >)
        ensures
            outcome(r) == add_document::add_document_writes(self.vault()@, id, root),
            r matches Ok(c) ==> c.event.document_id == id && c.event.root_block_id == root,
    {
        add_document::execute(self.ports.vault, id, root)
    }

    pub fn delete_document(&self, document_id: u128) -> (r: Result<
        CommandResult<DocumentDeleted>,
        DomainError,
    >)
        ensures
            outcome(r) == delete_document::delete_document_writes(self.vault()@, document_id),
            r matches Ok(c) ==> c.event.document_id == document_id,
    {
        delete_document::execute(self.ports.vault, document_id)
    }

    pub fn append_section(&self, document_id: u128, block_id: u128) -> (r: Result<
        CommandResult<SectionAppended>,
        DomainError,
    >)
        ensures
            outcome(r) == append_section::append_section_writes(self.vault()@, document_id, block_id),
            r matches Ok(c) ==> c.event.document_id == document_id && c.event.block_id == block_id && c.event.depth == 1,
    {
        append_section::execute(self.ports.vault, document_id, block_id)
    }

    pub fn append_subsection(&self, document_id: u128, section_block_id: u128, block_id: u128) -> (r:
        Result<CommandResult<SectionAppended>, DomainError>)
        ensures
            outcome(r) == append_subsection::append_subsection_writes(
                self.vault()@,
                document_id,
                section_block_id,
                block_id,
            ),
            r matches Ok(c) ==> c.event.document_id == document_id && c.event.block_id == block_id && c.event.depth == 2,
    {
        append_subsection::execute(self.ports.vault, document_id, section_block_id, block_id)
    }

    pub fn remove_section(&self, document_id: u128, block_id: u128) -> (r: Result<
        CommandResult<SectionRemoved>,
        DomainError,
    >)
        ensures
            outcome(r) == remove_section::remove_section_writes(self.vault()@, document_id, block_id),
            r matches Ok(c) ==> c.event.document_id == document_id && c.event.block_id == block_id,
    {
        remove_section::execute(self.ports.vault, document_id, block_id)
    }

    pub fn reorder_sections(&self, document_id: u128, section_order: Vec<u128>) -> (r: Result<
        CommandResult<SectionsReordered>,
        DomainError,
    >)
        ensures
            outcome(r) == reorder_sections::reorder_sections_writes(
                self.vault()@,
                document_id,
                section_order@,
            ),
            r matches Ok(c) ==> c.event.document_id == document_id,
    {
        reorder_sections::execute(self.ports.vault, document_id, section_order)
    }
}

} // verus!
