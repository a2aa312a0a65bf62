//! One module per command. Each exposes an `execute` function that reads the vault and
//! returns the ordered writes and the event, or the error the command is refused with.
//! Use cases take the current time as an argument where they stamp blocks.

use vstd::prelude::*;

use crate::blocks::blocks_seq_view;
use crate::error::{DomainError, DomainFailure};
use crate::journal::{apply_writes, lemma_apply_one};
use crate::ports::name_matches_ignore_case;
use crate::results::{writes_view, CommandResult, VaultWrite, WriteView};
use crate::text::first_where;
use crate::types::{Block, BlockView, Edge, VaultView};

pub mod add_block;
pub mod add_document;
pub mod add_edge;
pub mod append_section;
pub mod append_subsection;
pub mod delete_block_cascade;
pub mod delete_block_safe;
pub mod delete_document;
pub mod init_vault;
pub mod mutate_block_content;
pub mod remove_edge;
pub mod remove_section;
pub mod rename_block;
pub mod reorder_sections;

verus! {

/// The writes of a successful command, or its error.
pub open spec fn outcome<E>(r: Result<CommandResult<E>, DomainError>) -> Result<Seq<WriteView>, DomainFailure> {
    match r {
        Ok(c) => Ok(writes_view(c.writes@)),
        Err(e) => Err(e@),
    }
}

/// The id of another block whose name equals `n` ignoring case, if there is one.
pub open spec fn name_taken_by_other(v: VaultView, n: Seq<char>, id: u128) -> Option<u128> {
    match first_where(v.names, name_matches_ignore_case(n)) {
        Some(p) => if p.1 != id {
            Some(p.1)
        } else {
            None
        },
        None => None,
    }
}

pub open spec fn block_writes(bs: Seq<BlockView>) -> Seq<WriteView> {
    bs.map_values(|b: BlockView| WriteView::WriteBlock(b))
}

pub open spec fn edge_removals(es: Seq<Edge>) -> Seq<WriteView> {
    es.map_values(|e: Edge| WriteView::RemoveEdge(e.id))
}

pub fn push_write(out: &mut Vec<VaultWrite>, w: VaultWrite)
    ensures
        writes_view(final(out)@) == writes_view(old(out)@).push(w@),
{
    let ghost before = out@;
    out.push(w);
    assert(writes_view(out@) =~= writes_view(before).push(w@));
}

/// Append a `WriteBlock` for each block, in order.
pub fn push_block_writes(out: &mut Vec<VaultWrite>, bs: &Vec<Block>)
    ensures
        writes_view(final(out)@) == writes_view(old(out)@) + block_writes(blocks_seq_view(bs@)),
{
    let ghost start = writes_view(out@);
    let ghost s = blocks_seq_view(bs@);
    let mut i: usize = 0;
    while i < bs.len()
        invariant
            i <= bs.len(),
            s == blocks_seq_view(bs@),
            writes_view(out@) == start + block_writes(s.subrange(0, i as int)),
        decreases bs.len() - i,
    {
        push_write(out, VaultWrite::WriteBlock(bs[i].clone()));
        assert(block_writes(s.subrange(0, i + 1)) =~= block_writes(s.subrange(0, i as int)).push(
            WriteView::WriteBlock(s[i as int]),
        ));
        assert(writes_view(out@) =~= start + block_writes(s.subrange(0, i + 1)));
        i += 1;
    }
    assert(s.subrange(0, bs.len() as int) =~= s);
}

/// Append a `RemoveEdge` for each edge, in order.
pub fn push_edge_removals(out: &mut Vec<VaultWrite>, es: &Vec<Edge>)
    ensures
        writes_view(final(out)@) == writes_view(old(out)@) + edge_removals(es@),
{
    let ghost start = writes_view(out@);
    let mut i: usize = 0;
    while i < es.len()
        invariant
            i <= es.len(),
            writes_view(out@) == start + edge_removals(es@.subrange(0, i as int)),
        decreases es.len() - i,
    {
        push_write(out, VaultWrite::RemoveEdge(es[i].id));
        assert(edge_removals(es@.subrange(0, i + 1)) =~= edge_removals(es@.subrange(0, i as int)).push(
            WriteView::RemoveEdge(es@[i as int].id),
        ));
        assert(writes_view(out@) =~= start + edge_removals(es@.subrange(0, i + 1)));
        i += 1;
    }
    assert(es@.subrange(0, es.len() as int) =~= es@);
}

/// The other block, if any, that holds `name` ignoring case.
pub fn conflicting_block(vault: &crate::types::Vault, name: &str, id: u128) -> (r: Option<u128>)
    ensures
        r == name_taken_by_other(vault@, name@, id),
{
    match vault.resolve_name_ignore_case(name) {
        Some((_, existing)) => if existing != id {
            Some(existing)
        } else {
            None
        },
        None => None,
    }
}


/// What a document command leaves alone: the blocks, the edges and the name index.
pub open spec fn keeps_graph(v: VaultView, ws: Seq<WriteView>) -> bool {
    let after = apply_writes(v, ws);
    &&& after.blocks == v.blocks
    &&& after.edges == v.edges
    &&& after.names == v.names
}

/// A single document write leaves the graph as it was.
proof fn lemma_document_write_keeps_graph(v: VaultView, w: WriteView)
    requires
        w is WriteDocument || w is DeleteDocument,
    ensures
        keeps_graph(v, seq![w]),
{
    lemma_apply_one(v, w);
}

/// Documents are views over the heap: whatever a document command writes (creating or
/// deleting a document, appending, removing or reordering its sections) leaves the
/// blocks, the edges and the name index as they were.
pub proof fn law_document_commands_keep_graph(
    v: VaultView,
    document_id: u128,
    root: u128,
    section_block_id: u128,
    block_id: u128,
    order: Seq<u128>,
)
    ensures
        add_document::add_document_writes(v, document_id, root) matches Ok(ws) ==> keeps_graph(
            v,
            ws,
        ),
        append_section::append_section_writes(v, document_id, block_id) matches Ok(ws)
            ==> keeps_graph(v, ws),
        append_subsection::append_subsection_writes(v, document_id, section_block_id, block_id)
            matches Ok(ws) ==> keeps_graph(v, ws),
        remove_section::remove_section_writes(v, document_id, block_id) matches Ok(ws)
            ==> keeps_graph(v, ws),
        reorder_sections::reorder_sections_writes(v, document_id, order) matches Ok(ws)
            ==> keeps_graph(v, ws),
        delete_document::delete_document_writes(v, document_id) matches Ok(ws) ==> keeps_graph(
            v,
            ws,
        ),
{
    if let Ok(ws) = add_document::add_document_writes(v, document_id, root) {
        lemma_document_write_keeps_graph(v, ws[0]);
        assert(ws == seq![ws[0]]);
    }
    if let Ok(ws) = append_section::append_section_writes(v, document_id, block_id) {
        lemma_document_write_keeps_graph(v, ws[0]);
        assert(ws == seq![ws[0]]);
    }
    if let Ok(ws) = append_subsection::append_subsection_writes(
        v,
        document_id,
        section_block_id,
        block_id,
    ) {
        lemma_document_write_keeps_graph(v, ws[0]);
        assert(ws == seq![ws[0]]);
    }
    if let Ok(ws) = remove_section::remove_section_writes(v, document_id, block_id) {
        lemma_document_write_keeps_graph(v, ws[0]);
        assert(ws == seq![ws[0]]);
    }
    if let Ok(ws) = reorder_sections::reorder_sections_writes(v, document_id, order) {
        lemma_document_write_keeps_graph(v, ws[0]);
        assert(ws == seq![ws[0]]);
    }
    if let Ok(ws) = delete_document::delete_document_writes(v, document_id) {
        lemma_document_write_keeps_graph(v, ws[0]);
        assert(ws == seq![ws[0]]);
    }
}

} // verus!
