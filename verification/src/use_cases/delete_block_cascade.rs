//! DeleteBlockCascade: force-delete a block and everything that points to it.

use vstd::prelude::*;

use crate::blocks::{self, blocks_seq_view, capped, ref_total, reverted_block};
use crate::documents::{
    lemma_sections_without_clears, lemma_sections_without_keeps, mentions_in_sections,
    remove_block_from_document, remove_block_spec, sections_without, RemoveBlockResult,
    RemoveBlockView,
};
use crate::error::{DomainError, DomainFailure};
use crate::events::BlockDeleted;
use crate::invariants::{flat, lemma_flat_step};
use crate::ports::{blocks_refs_name, document_has_id, edge_touches};
use crate::results::{writes_view, CommandResult, VaultWrite, WriteView};
use crate::journal::{
    apply_writes, effect, last_effect, lemma_last_effect, lemma_last_effect_concat,
    lemma_writes_frame, look, target, Artifact, Holding,
};
use crate::text::{is_first_where, keep, lemma_first_where_found, lemma_keep_complete};
use crate::time::Timestamp;
use crate::types::{
    block_lookup, documents_sorted, documents_view, ts_view, BlockView, DocumentView, Vault, VaultView,
};
use crate::use_cases::{block_writes, edge_removals, outcome, push_block_writes, push_edge_removals, push_write};

verus! {

/// What deleting block `id` does to document `d`: rewritten without it, deleted when it
/// was the root, untouched when it does not appear.
pub open spec fn document_removal(d: DocumentView, id: u128) -> Seq<WriteView> {
    match remove_block_spec(d, id) {
        Some(RemoveBlockView::Updated(u)) => seq![WriteView::WriteDocument(u)],
        Some(RemoveBlockView::DeleteDocument) => seq![WriteView::DeleteDocument(d.id)],
        None => Seq::empty(),
    }
}

/// The blocks whose content references `[[name]]`, with those references reverted.
pub open spec fn reverted_referencing(v: VaultView, name: Seq<char>, id: u128, now: (i64, u32)) -> Seq<BlockView> {
    keep(v.blocks, blocks_refs_name(name)).map_values(|x: BlockView| reverted_block(x, name, id, now))
}

/// The writes of force-deleting block `id`: the documents it leaves, the blocks whose
/// references to it were reverted, the removal of all its edges, the block and its name.
pub open spec fn delete_block_cascade_writes(v: VaultView, now: (i64, u32), id: u128) -> Result<
    Seq<WriteView>,
    DomainFailure,
> {
    match block_lookup(v.blocks, id) {
        None => Err(DomainFailure::BlockNotFound(id)),
        Some(b) => Ok(
            flat(v.documents, |d: DocumentView| document_removal(d, id)) + block_writes(
                reverted_referencing(v, b.name, id, now),
            ) + edge_removals(keep(v.edges, edge_touches(id))) + seq![
                WriteView::DeleteBlock(id),
                WriteView::RemoveName(b.name),
            ],
        ),
    }
}

/// Force-delete a block: remove it from every document that holds it (deleting those it
/// is the root of), revert `[[name]]` references to it to plain text, remove every edge
/// into or out of it, then the block and its name.
pub fn execute(vault: &Vault, now: Timestamp, block_id: u128) -> (r: Result<CommandResult<BlockDeleted>, DomainError>)
    ensures
        outcome(r) == delete_block_cascade_writes(vault@, ts_view(now), block_id),
        r matches Ok(c) ==> {
            &&& block_lookup(vault@.blocks, block_id) matches Some(b)
            &&& c.event.block_id == block_id
            &&& c.event.edges_removed == keep(vault@.edges, edge_touches(block_id)).len()
            &&& c.event.inline_refs_reverted == capped(
                ref_total(keep(vault@.blocks, blocks_refs_name(b.name)), b.name),
            )
        },
{
    let block = match vault.get_block(block_id) {
        Some(b) => b,
        None => {
            return Err(DomainError::BlockNotFound(block_id));
        },
    };
    let mut writes: Vec<VaultWrite> = Vec::new();
    let ghost ds = vault@.documents;
    let ghost f = |d: DocumentView| document_removal(d, block_id);
    assert(writes_view(writes@) =~= flat(ds.subrange(0, 0), f));
    let mut i: usize = 0;
    while i < vault.documents.len()
        invariant
            i <= vault.documents.len(),
            ds == documents_view(vault.documents@),
            f == (|d: DocumentView| document_removal(d, block_id)),
            writes_view(writes@) == flat(ds.subrange(0, i as int), f),
        decreases vault.documents.len() - i,
    {
        proof {
            lemma_flat_step(ds, f, i as int);
        }
        let doc_id = vault.documents[i].id;
        let doc = vault.documents[i].clone();
        let ghost before = writes_view(writes@);
        match remove_block_from_document(doc, block_id) {
            Some(RemoveBlockResult::Updated(updated)) => {
                push_write(&mut writes, VaultWrite::WriteDocument(updated));
            },
            Some(RemoveBlockResult::DeleteDocument) => {
                push_write(&mut writes, VaultWrite::DeleteDocument(doc_id));
            },
            None => {},
        }
        assert(writes_view(writes@) =~= before + f(ds[i as int]));
        i += 1;
    }
    assert(ds.subrange(0, vault.documents.len() as int) =~= ds);
    let referencing = vault.blocks_referencing(block.name.as_str());
    let (reverted, inline_refs_reverted) = blocks::revert_refs(referencing, block.name.as_str(), block_id, now);
    let all_edges = vault.touching_edges(block_id);
    let ghost docs_part = writes_view(writes@);
    push_block_writes(&mut writes, &reverted);
    push_edge_removals(&mut writes, &all_edges);
    push_write(&mut writes, VaultWrite::DeleteBlock(block_id));
    push_write(&mut writes, VaultWrite::RemoveName(block.name.clone()));
    assert(blocks_seq_view(reverted@) == reverted_referencing(vault@, block@.name, block_id, ts_view(now)));
    assert(writes_view(writes@) =~= docs_part + block_writes(
        reverted_referencing(vault@, block@.name, block_id, ts_view(now)),
    ) + edge_removals(keep(vault@.edges, edge_touches(block_id))) + seq![
        WriteView::DeleteBlock(block_id),
        WriteView::RemoveName(block@.name),
    ]);
    Ok(CommandResult {
        writes,
        event: BlockDeleted { block_id, edges_removed: all_edges.len(), inline_refs_reverted },
    })
}


/// After a cascade delete the block is gone, its name no longer resolves, and every edge
/// that went into or out of it is removed.
pub proof fn law_cascade_delete_removes_block_and_edges(v: VaultView, now: (i64, u32), id: u128)
    requires
        delete_block_cascade_writes(v, now, id) is Ok,
    ensures
        ({
            let b = block_lookup(v.blocks, id)->0;
            let after = apply_writes(v, delete_block_cascade_writes(v, now, id)->Ok_0);
            &&& look(after, Artifact::Block(id)) == Holding::Block(None)
            &&& look(after, Artifact::Name(b.name)) == Holding::Name(None)
            &&& forall|k: int|
                0 <= k < v.edges.len() && edge_touches(id)(v.edges[k]) ==> look(
                    after,
                    Artifact::Edge(#[trigger] v.edges[k].id),
                ) == Holding::Edge(None)
        }),
{
    let b = block_lookup(v.blocks, id)->0;
    let dw = flat(v.documents, |d: DocumentView| document_removal(d, id));
    let bw = block_writes(reverted_referencing(v, b.name, id, now));
    let kept = keep(v.edges, edge_touches(id));
    let er = edge_removals(kept);
    let tail = seq![WriteView::DeleteBlock(id), WriteView::RemoveName(b.name)];
    let all = dw + bw + er + tail;
    assert(delete_block_cascade_writes(v, now, id)->Ok_0 == all);
    let after = apply_writes(v, all);
    lemma_writes_frame(v, all, Artifact::Block(id));
    lemma_writes_frame(v, all, Artifact::Name(b.name));
    assert(all.drop_last() =~= dw + bw + er + seq![WriteView::DeleteBlock(id)]);
    assert(all.last() == WriteView::RemoveName(b.name));
    let front = dw + bw + er + seq![WriteView::DeleteBlock(id)];
    assert(front.last() == WriteView::DeleteBlock(id));
    assert(last_effect(front, Artifact::Block(id)) == Some(Holding::Block(None)));
    assert(last_effect(all, Artifact::Block(id)) == last_effect(front, Artifact::Block(id)));
    assert(last_effect(all, Artifact::Name(b.name)) == Some(Holding::Name(None)));
    assert forall|k: int| 0 <= k < v.edges.len() && edge_touches(id)(v.edges[k]) implies look(
        after,
        Artifact::Edge(#[trigger] v.edges[k].id),
    ) == Holding::Edge(None) by {
        let a = Artifact::Edge(v.edges[k].id);
        lemma_keep_complete(v.edges, edge_touches(id), k);
        let j = choose|j: int| 0 <= j < kept.len() && kept[j] == v.edges[k];
        assert(er[j] == WriteView::RemoveEdge(kept[j].id));
        lemma_last_effect(er, a);
        if last_effect(er, a) is None {
            assert(target(er[j]) != a);
        }
        let i = choose|i: int| 0 <= i < er.len() && target(#[trigger] er[i]) == a && effect(er[i])
            == last_effect(er, a)->0;
        assert(er[i] == WriteView::RemoveEdge(kept[i].id));
        lemma_last_effect_concat(dw + bw, er, a);
        lemma_last_effect_concat(dw + bw + er, tail, a);
        assert(last_effect(tail, a) is None) by {
            let t1 = seq![WriteView::DeleteBlock(id)];
            assert(tail.drop_last() =~= t1);
            assert(target(tail.last()) != a);
            assert(last_effect(tail, a) == last_effect(t1, a));
            assert(t1.drop_last() =~= Seq::<WriteView>::empty());
            assert(target(t1.last()) != a);
            assert(last_effect(t1, a) == last_effect(Seq::<WriteView>::empty(), a));
        }
        lemma_writes_frame(v, all, a);
    }
}


/// The document writes touch no document whose id is not in the list.
proof fn lemma_removals_elsewhere(ds: Seq<DocumentView>, id: u128, x: u128)
    requires
        forall|k: int| 0 <= k < ds.len() ==> #[trigger] ds[k].id != x,
    ensures
        last_effect(flat(ds, |d: DocumentView| document_removal(d, id)), Artifact::Document(x)) is None,
    decreases ds.len(),
{
    if ds.len() > 0 {
        let f = |d: DocumentView| document_removal(d, id);
        let d = ds.last();
        assert(ds[ds.len() - 1] == d);
        assert forall|k: int| 0 <= k < ds.drop_last().len() implies #[trigger] ds.drop_last()[k].id
            != x by {
            assert(ds.drop_last()[k] == ds[k]);
        }
        lemma_removals_elsewhere(ds.drop_last(), id, x);
        lemma_last_effect_concat(flat(ds.drop_last(), f), f(d), Artifact::Document(x));
        lemma_last_effect(f(d), Artifact::Document(x));
        if last_effect(f(d), Artifact::Document(x)) is Some {
            let i = choose|i: int|
                0 <= i < f(d).len() && target(#[trigger] f(d)[i]) == Artifact::Document(x)
                    && effect(f(d)[i]) == last_effect(f(d), Artifact::Document(x))->0;
        }
    }
}

/// For a list of documents in id order, the document writes' last effect on one of them
/// is that of its own removal.
proof fn lemma_removal_effect(ds: Seq<DocumentView>, id: u128, k: int)
    requires
        documents_sorted(ds),
        0 <= k < ds.len(),
    ensures
        last_effect(flat(ds, |d: DocumentView| document_removal(d, id)), Artifact::Document(ds[k].id))
            == last_effect(document_removal(ds[k], id), Artifact::Document(ds[k].id)),
    decreases ds.len(),
{
    let f = |d: DocumentView| document_removal(d, id);
    let a = Artifact::Document(ds[k].id);
    let d = ds.last();
    let pre = ds.drop_last();
    assert(ds[ds.len() - 1] == d);
    lemma_last_effect_concat(flat(pre, f), f(d), a);
    if k == ds.len() - 1 {
        assert forall|j: int| 0 <= j < pre.len() implies #[trigger] pre[j].id != ds[k].id by {
            assert(pre[j] == ds[j]);
        }
        lemma_removals_elsewhere(pre, id, ds[k].id);
    } else {
        assert(ds[k].id < d.id);
        lemma_last_effect(f(d), a);
        if last_effect(f(d), a) is Some {
            let i = choose|i: int|
                0 <= i < f(d).len() && target(#[trigger] f(d)[i]) == a && effect(f(d)[i])
                    == last_effect(f(d), a)->0;
        }
        assert(documents_sorted(pre)) by {
            assert forall|i: int, j: int| 0 <= i < j < pre.len() implies pre[i].id < pre[j].id by {
                assert(pre[i] == ds[i] && pre[j] == ds[j]);
            }
        }
        assert(pre[k] == ds[k]);
        lemma_removal_effect(pre, id, k);
    }
}

/// After a cascade delete no document refers to the block: a document rooted at it is
/// deleted, any other loses the sections and subsections of the block and keeps the
/// rest, for a vault whose documents are in id order.
pub proof fn law_cascade_delete_clears_documents(v: VaultView, now: (i64, u32), id: u128, k: int)
    requires
        documents_sorted(v.documents),
        delete_block_cascade_writes(v, now, id) is Ok,
        0 <= k < v.documents.len(),
    ensures
        ({
            let d = v.documents[k];
            let after = apply_writes(v, delete_block_cascade_writes(v, now, id)->Ok_0);
            look(after, Artifact::Document(d.id)) == Holding::Document(
                if d.root == id {
                    None
                } else {
                    Some(DocumentView { sections: sections_without(d.sections, id), ..d })
                },
            )
        }),
        v.documents[k].root != id ==> !mentions_in_sections(
            sections_without(v.documents[k].sections, id),
            id,
        ),
{
    let d = v.documents[k];
    let b = block_lookup(v.blocks, id)->0;
    let fr = |x: DocumentView| document_removal(x, id);
    let dw = flat(v.documents, fr);
    let bw = block_writes(reverted_referencing(v, b.name, id, now));
    let er = edge_removals(keep(v.edges, edge_touches(id)));
    let tail = seq![WriteView::DeleteBlock(id), WriteView::RemoveName(b.name)];
    let all = dw + bw + er + tail;
    assert(delete_block_cascade_writes(v, now, id)->Ok_0 == all);
    let a = Artifact::Document(d.id);
    lemma_writes_frame(v, all, a);
    lemma_removal_effect(v.documents, id, k);
    lemma_last_effect(bw, a);
    if last_effect(bw, a) is Some {
        let i = choose|i: int| 0 <= i < bw.len() && target(#[trigger] bw[i]) == a && effect(bw[i])
            == last_effect(bw, a)->0;
    }
    lemma_last_effect(er, a);
    if last_effect(er, a) is Some {
        let i = choose|i: int| 0 <= i < er.len() && target(#[trigger] er[i]) == a && effect(er[i])
            == last_effect(er, a)->0;
    }
    lemma_last_effect(tail, a);
    if last_effect(tail, a) is Some {
        let i = choose|i: int| 0 <= i < tail.len() && target(#[trigger] tail[i]) == a && effect(
            tail[i],
        ) == last_effect(tail, a)->0;
    }
    lemma_last_effect_concat(dw, bw, a);
    lemma_last_effect_concat(dw + bw, er, a);
    lemma_last_effect_concat(dw + bw + er, tail, a);
    // the document's own removal
    let rm = document_removal(d, id);
    if d.root != id && !mentions_in_sections(d.sections, id) {
        assert(rm =~= Seq::<WriteView>::empty());
        assert(sections_without(d.sections, id) == d.sections) by {
            lemma_sections_without_keeps(d.sections, id);
        }
        assert(DocumentView { sections: d.sections, ..d } == d);
        assert(is_first_where(v.documents, document_has_id(d.id), k)) by {
            assert forall|j: int| 0 <= j < k implies !document_has_id(d.id)(v.documents[j]) by {
                assert(v.documents[j].id < v.documents[k].id);
            }
        }
        lemma_first_where_found(v.documents, document_has_id(d.id), k);
    } else {
        assert(rm.last() == rm[0]);
        assert(rm.drop_last() =~= Seq::<WriteView>::empty());
    }
    if d.root != id {
        lemma_sections_without_clears(d.sections, id);
    }
}

} // verus!
