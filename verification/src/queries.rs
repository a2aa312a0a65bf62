//! Read-only projections over a loaded vault.

use vstd::prelude::*;

use crate::ports::{edge_from, edge_into};
use crate::text::{assoc_get, keep};
use crate::types::{blocks_view, Block, BlockView, Edge, Vault};

verus! {

/// Whether `id` is the source or target of some edge.
pub open spec fn is_endpoint(edges: Seq<Edge>, id: u128) -> bool {
    exists|i: int| 0 <= i < edges.len() && (edges[i].source == id || edges[i].target == id)
}

/// The blocks that no edge touches.
pub open spec fn unconnected(edges: Seq<Edge>) -> spec_fn(BlockView) -> bool {
    |b: BlockView| !is_endpoint(edges, b.id)
}

pub open spec fn block_ids(bs: Seq<BlockView>) -> Seq<u128> {
    bs.map_values(|b: BlockView| b.id)
}

pub open spec fn edge_sources(es: Seq<Edge>) -> Seq<u128> {
    es.map_values(|e: Edge| e.source)
}

/// Resolve a block name to its id through the name index.
pub fn resolve_name(vault: &Vault, name: &str) -> (r: Option<u128>)
    ensures
        vault@.wf() ==> r == assoc_get(vault@.names, name@),
{
    vault.resolve_name(name)
}

/// The `(outgoing, incoming)` edges of a block, each in graph order.
pub fn edges_for(vault: &Vault, block_id: u128) -> (r: (Vec<Edge>, Vec<Edge>))
    ensures
        r.0@ == keep(vault@.edges, edge_from(block_id)),
        r.1@ == keep(vault@.edges, edge_into(block_id)),
{
    (vault.outgoing_edges(block_id), vault.incoming_edges(block_id))
}

fn touches(edges: &Vec<Edge>, id: u128) -> (r: bool)
    ensures
        r == is_endpoint(edges@, id),
{
    let mut i: usize = 0;
    while i < edges.len()
        invariant
            i <= edges.len(),
            forall|j: int| 0 <= j < i ==> !(edges@[j].source == id || edges@[j].target == id),
        decreases edges.len() - i,
    {
        if edges[i].source == id || edges[i].target == id {
            return true;
        }
        i += 1;
    }
    false
}

/// The ids of the blocks with no incoming and no outgoing edge, in heap order.
pub fn orphans(vault: &Vault) -> (r: Vec<u128>)
    ensures
        r@ == block_ids(keep(vault@.blocks, unconnected(vault@.edges))),
{
    let ghost bs = vault@.blocks;
    let ghost f = unconnected(vault@.edges);
    let mut out: Vec<u128> = Vec::new();
    let mut i: usize = 0;
    while i < vault.blocks.len()
        invariant
            i <= vault.blocks.len(),
            bs == blocks_view(vault.blocks@),
            f == unconnected(vault@.edges),
            out@ == block_ids(keep(bs.subrange(0, i as int), f)),
        decreases vault.blocks.len() - i,
    {
        let id = vault.blocks[i].id;
        let hit = !touches(&vault.graph.edges, id);
        assert(hit == f(bs[i as int]));
        assert(bs.subrange(0, i + 1).drop_last() =~= bs.subrange(0, i as int));
        let ghost before = keep(bs.subrange(0, i as int), f);
        if hit {
            out.push(id);
            assert(keep(bs.subrange(0, i + 1), f) == before.push(bs[i as int]));
            assert(block_ids(before.push(bs[i as int])) =~= block_ids(before).push(id));
        }
        i += 1;
    }
    assert(bs.subrange(0, vault.blocks.len() as int) =~= bs);
    out
}

/// All blocks of the vault, in heap order.
pub fn list_blocks(vault: &Vault) -> (r: Vec<Block>)
    ensures
        blocks_view(r@) == vault@.blocks,
{
    vault.all_blocks()
}

/// The sources of the edges that point at `block_id`, in graph order.
pub fn backlinks(vault: &Vault, block_id: u128) -> (r: Vec<u128>)
    ensures
        r@ == edge_sources(keep(vault@.edges, edge_into(block_id))),
{
    let incoming = vault.incoming_edges(block_id);
    let mut out: Vec<u128> = Vec::new();
    let mut i: usize = 0;
    while i < incoming.len()
        invariant
            i <= incoming.len(),
            out@ == edge_sources(incoming@.subrange(0, i as int)),
        decreases incoming.len() - i,
    {
        out.push(incoming[i].source);
        assert(edge_sources(incoming@.subrange(0, i + 1)) =~= edge_sources(
            incoming@.subrange(0, i as int),
        ).push(incoming@[i as int].source));
        i += 1;
    }
    assert(incoming@.subrange(0, incoming.len() as int) =~= incoming@);
    out
}

} // verus!
