//! AddEdge: create a directed edge between two blocks.

use vstd::prelude::*;

use crate::edges;
use crate::error::{DomainError, DomainFailure};
use crate::events::EdgeAdded;
use crate::ports::edge_has_id;
use crate::results::{writes_view, CommandResult, VaultWrite, WriteView};
use crate::content::{footer_annotations, inline_refs};
use crate::invariants::{
    block_annotation_violations, block_to_block_violation, endpoint_violation, has_block,
    has_edge_pair, lemma_flat_empty, metadata_violation, ref_annotation_violation,
    vault_violations,
};
use crate::journal::{apply_write, apply_writes, edge_other, lemma_apply_one};
use crate::text::{
    assoc_first, first_where, keep, lemma_first_where_exists, lemma_keep_complete,
    lemma_keep_members,
};
use crate::types::{block_lookup, is_first_block, BlockView, Edge, Vault, VaultView};
use crate::use_cases::{outcome, push_write};

verus! {

pub open spec fn add_edge_writes(v: VaultView, id: u128, source: u128, target: u128) -> Result<
    Seq<WriteView>,
    DomainFailure,
> {
    if block_lookup(v.blocks, source) is None {
        Err(DomainFailure::SourceNotInHeap(source))
    } else if block_lookup(v.blocks, target) is None {
        Err(DomainFailure::TargetNotInHeap(target))
    } else if first_where(v.edges, edge_has_id(id)) is Some {
        Err(DomainFailure::DuplicateId(id))
    } else {
        Ok(seq![WriteView::WriteEdge(Edge { id, source, target })])
    }
}

/// Create an edge; both endpoints must be in the heap and the id unused.
pub fn execute(vault: &Vault, id: u128, source: u128, target: u128) -> (r: Result<CommandResult<EdgeAdded>, DomainError>)
    ensures
        outcome(r) == add_edge_writes(vault@, id, source, target),
        r matches Ok(c) ==> c.event.edge_id == id && c.event.source == source && c.event.target
            == target,
{
    if vault.get_block(source).is_none() {
        return Err(DomainError::SourceNotInHeap(source));
    }
    if vault.get_block(target).is_none() {
        return Err(DomainError::TargetNotInHeap(target));
    }
    if vault.edge_with_id(id).is_some() {
        return Err(DomainError::DuplicateId(id));
    }
    let edge = edges::create(id, source, target);
    let mut writes: Vec<VaultWrite> = Vec::new();
    assert(writes_view(writes@) =~= Seq::<WriteView>::empty());
    push_write(&mut writes, VaultWrite::WriteEdge(edge));
    assert(writes_view(writes@) =~= seq![WriteView::WriteEdge(Edge { id, source, target })]);
    Ok(CommandResult { writes, event: EdgeAdded { edge_id: id, source, target } })
}


/// Linking two blocks keeps a valid vault valid: the new edge joins blocks of the heap,
/// and every inline reference that had its edge still has it.
pub proof fn law_link_keeps_vault_valid(v: VaultView, id: u128, source: u128, target: u128)
    requires
        vault_violations(v).len() == 0,
        add_edge_writes(v, id, source, target) is Ok,
    ensures
        vault_violations(apply_writes(v, add_edge_writes(v, id, source, target)->Ok_0)).len() == 0,
{
    let e = Edge { id, source, target };
    let w = WriteView::WriteEdge(e);
    lemma_apply_one(v, w);
    let after = apply_write(v, w);
    let kept = keep(v.edges, edge_other(id));
    assert(after.edges == kept.push(e));
    lemma_keep_members(v.edges, edge_other(id));
    assert(has_block(v.blocks, source)) by {
        let i = choose|i: int| is_first_block(v.blocks, source, i);
        assert(is_first_block(v.blocks, source, i));
    }
    assert(has_block(v.blocks, target)) by {
        let i = choose|i: int| is_first_block(v.blocks, target, i);
        assert(is_first_block(v.blocks, target, i));
    }
    // the edge checks
    let fe = |x: Edge| endpoint_violation(v.blocks, x);
    let fb = |x: Edge| block_to_block_violation(v.blocks, x);
    lemma_flat_empty(v.edges, fe);
    lemma_flat_empty(v.edges, fb);
    lemma_flat_empty(after.edges, fe);
    lemma_flat_empty(after.edges, fb);
    assert forall|j: int| 0 <= j < after.edges.len() implies #[trigger] fe(after.edges[j]).len() == 0
        && fb(after.edges[j]).len() == 0 by {
        if j < kept.len() {
            assert(after.edges[j] == kept[j]);
            let i = choose|i: int| 0 <= i < v.edges.len() && v.edges[i] == kept[j];
            assert(fe(v.edges[i]).len() == 0);
            assert(fb(v.edges[i]).len() == 0);
        }
    }
    // the inline references keep their edges
    let fa = |b: BlockView| block_annotation_violations(v.edges, b);
    let ga = |b: BlockView| block_annotation_violations(after.edges, b);
    lemma_flat_empty(v.blocks, fa);
    lemma_flat_empty(v.blocks, ga);
    assert forall|i: int| 0 <= i < v.blocks.len() implies #[trigger] ga(v.blocks[i]).len() == 0 by {
        let b = v.blocks[i];
        assert(fa(v.blocks[i]).len() == 0);
        let rs = inline_refs(b.content);
        let fr = |r: Seq<char>| ref_annotation_violation(v.edges, b.id, footer_annotations(b.content), r);
        let gr = |r: Seq<char>| ref_annotation_violation(after.edges, b.id, footer_annotations(b.content), r);
        lemma_flat_empty(rs, fr);
        lemma_flat_empty(rs, gr);
        assert forall|k: int| 0 <= k < rs.len() implies #[trigger] gr(rs[k]).len() == 0 by {
            assert(fr(rs[k]).len() == 0);
            let foot = footer_annotations(b.content);
            if let Some(t) = assoc_first(foot, rs[k]) {
                assert(has_edge_pair(v.edges, b.id, t));
                let q = choose|q: int| 0 <= q < v.edges.len() && v.edges[q].source == b.id && v.edges[q].target == t;
                assert(v.edges[q].id != id) by {
                    if v.edges[q].id == id {
                        lemma_first_where_exists(v.edges, edge_has_id(id), q);
                    }
                }
                lemma_keep_complete(v.edges, edge_other(id), q);
                let p = choose|p: int| 0 <= p < kept.len() && kept[p] == v.edges[q];
                assert(after.edges[p] == kept[p]);
                assert(has_edge_pair(after.edges, b.id, t));
            }
        }
    }
    lemma_flat_empty(v.blocks, |b: BlockView| metadata_violation(b));
    assert(vault_violations(after) =~= vault_violations(v));
}

} // verus!
