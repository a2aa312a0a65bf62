//! DeleteBlockSafe: delete a block that nothing points to by an edge.

use vstd::prelude::*;

use crate::block_file::{links_revertible, reverted_links_from, revert_refs_in_content};
use crate::blocks::{blocks_seq_view, capped};
use crate::error::{DomainError, DomainFailure};
use crate::events::BlockDeleted;
use crate::ports::{blocks_link_target, edge_into, edge_touches};
use crate::results::{writes_view, CommandResult, VaultWrite, WriteView};
use crate::journal::{
    apply_writes, effect, last_effect, lemma_last_effect, lemma_last_effect_concat,
    lemma_writes_frame, look, target, Artifact, Holding,
};
use crate::text::{keep, lemma_keep_complete};
use crate::time::Timestamp;
use crate::types::{block_lookup, ts_view, Block, BlockView, Vault, VaultView};
use crate::use_cases::{block_writes, edge_removals, outcome, push_block_writes, push_edge_removals, push_write};

verus! {

/// A block after its links to `target` are turned into their plain display text.
pub open spec fn link_reverted(x: BlockView, target: u128, now: (i64, u32)) -> BlockView {
    match reverted_links_from(x.content, 0, target) {
        Some((c, k)) => if k > 0 {
            BlockView { content: c, modified: now, ..x }
        } else {
            x
        },
        None => x,
    }
}

/// How many links to `target` the block holds.
pub open spec fn link_count(x: BlockView, target: u128) -> nat {
    match reverted_links_from(x.content, 0, target) {
        Some((_, k)) => k,
        None => 0,
    }
}

pub open spec fn link_total(bs: Seq<BlockView>, target: u128) -> nat
    decreases bs.len(),
{
    if bs.len() == 0 {
        0
    } else {
        link_total(bs.drop_last(), target) + link_count(bs.last(), target)
    }
}

/// The blocks that link to `target`.
pub open spec fn linking(v: VaultView, target: u128) -> Seq<BlockView> {
    keep(v.blocks, blocks_link_target(target))
}

/// Every link to `target` can be reverted: each is preceded by the `[` that opens its
/// display text.
pub open spec fn links_revertible_to(v: VaultView, target: u128) -> bool {
    forall|j: int|
        0 <= j < linking(v, target).len() ==> reverted_links_from(
            #[trigger] linking(v, target)[j].content,
            0,
            target,
        ) is Some
}

/// The writes of deleting block `id`: the blocks whose links to it were reverted, the
/// removal of its outgoing edges, the block and its name; or why it is refused.
pub open spec fn delete_block_safe_writes(v: VaultView, now: (i64, u32), id: u128) -> Result<
    Seq<WriteView>,
    DomainFailure,
> {
    match block_lookup(v.blocks, id) {
        None => Err(DomainFailure::BlockNotFound(id)),
        Some(b) => {
            let incoming = keep(v.edges, edge_into(id));
            if incoming.len() > 0 {
                Err(DomainFailure::HasIncomingEdges(id, incoming.len() as usize))
            } else {
                Ok(
                    block_writes(
                        linking(v, id).map_values(|x: BlockView| link_reverted(x, id, now)),
                    ) + edge_removals(keep(v.edges, edge_touches(id))) + seq![
                        WriteView::DeleteBlock(id),
                        WriteView::RemoveName(b.name),
                    ],
                )
            }
        },
    }
}

/// Whether every link to `target` in the vault can be reverted.
pub fn links_revertible_in(vault: &Vault, target: u128) -> (r: bool)
    ensures
        r == links_revertible_to(vault@, target),
{
    let refs = vault.blocks_linking(target);
    let ghost s = blocks_seq_view(refs@);
    let mut i: usize = 0;
    while i < refs.len()
        invariant
            i <= refs.len(),
            s == blocks_seq_view(refs@),
            s == linking(vault@, target),
            forall|j: int| 0 <= j < i ==> reverted_links_from(s[j].content, 0, target) is Some,
        decreases refs.len() - i,
    {
        if !links_revertible(refs[i].content.as_str(), target) {
            assert(s[i as int].content == refs@[i as int].content@);
            return false;
        }
        i += 1;
    }
    true
}

fn revert_links(referencing: Vec<Block>, target: u128, now: Timestamp) -> (r: (Vec<Block>, usize))
    requires
        forall|j: int|
            0 <= j < referencing.len() ==> reverted_links_from(
                #[trigger] referencing@[j].content@,
                0,
                target,
            ) is Some,
    ensures
        blocks_seq_view(r.0@) == blocks_seq_view(referencing@).map_values(
            |x: BlockView| link_reverted(x, target, ts_view(now)),
        ),
        r.1 == capped(link_total(blocks_seq_view(referencing@), target)),
{
    let ghost src = blocks_seq_view(referencing@);
    let ghost f = |x: BlockView| link_reverted(x, target, ts_view(now));
    let mut out: Vec<Block> = Vec::new();
    let mut total: usize = 0;
    let mut i: usize = 0;
    while i < referencing.len()
        invariant
            i <= referencing.len(),
            src == blocks_seq_view(referencing@),
            f == (|x: BlockView| link_reverted(x, target, ts_view(now))),
            forall|j: int|
                0 <= j < referencing.len() ==> reverted_links_from(
                    #[trigger] referencing@[j].content@,
                    0,
                    target,
                ) is Some,
            blocks_seq_view(out@) == src.subrange(0, i as int).map_values(f),
            total == capped(link_total(src.subrange(0, i as int), target)),
        decreases referencing.len() - i,
    {
        let mut b = referencing[i].clone();
        assert(reverted_links_from(referencing@[i as int].content@, 0, target) is Some);
        let (content, n) = revert_refs_in_content(b.content.as_str(), target);
        if n > 0 {
            b.content = content;
            b.modified = now;
        }
        total = total.saturating_add(n);
        let ghost before = out@;
        out.push(b);
        proof {
            assert(src.subrange(0, i + 1).drop_last() =~= src.subrange(0, i as int));
            assert(blocks_seq_view(out@) =~= blocks_seq_view(before).push(b@));
            assert(src.subrange(0, i + 1).map_values(f) =~= src.subrange(0, i as int).map_values(
                f,
            ).push(f(src[i as int])));
        }
        i += 1;
    }
    assert(src.subrange(0, referencing.len() as int) =~= src);
    (out, total)
}

/// Delete a block, refused while edges point to it. Its outgoing edges are removed and
/// links to it in other blocks are reverted to their plain display text.
pub fn execute(vault: &Vault, now: Timestamp, block_id: u128) -> (r: Result<CommandResult<BlockDeleted>, DomainError>)
    requires
        block_lookup(vault@.blocks, block_id) is Some && keep(vault@.edges, edge_into(block_id)).len()
            == 0 ==> links_revertible_to(vault@, block_id),
    ensures
        outcome(r) == delete_block_safe_writes(vault@, ts_view(now), block_id),
        r matches Ok(c) ==> {
            &&& c.event.block_id == block_id
            &&& c.event.edges_removed == keep(vault@.edges, edge_touches(block_id)).len()
            &&& c.event.inline_refs_reverted == capped(link_total(linking(vault@, block_id), block_id))
        },
{
    let block = match vault.get_block(block_id) {
        Some(b) => b,
        None => {
            return Err(DomainError::BlockNotFound(block_id));
        },
    };
    let incoming = vault.incoming_edges(block_id);
    if incoming.len() > 0 {
        return Err(DomainError::HasIncomingEdges(block_id, incoming.len()));
    }
    let referencing = vault.blocks_linking(block_id);
    proof {
        let s = linking(vault@, block_id);
        assert forall|j: int| 0 <= j < referencing.len() implies reverted_links_from(
            #[trigger] referencing@[j].content@,
            0,
            block_id,
        ) is Some by {
            assert(referencing@[j].content@ == s[j].content);
        }
    }
    let (reverted, inline_refs_reverted) = revert_links(referencing, block_id, now);
    let outgoing = vault.touching_edges(block_id);
    let mut writes: Vec<VaultWrite> = Vec::new();
    assert(writes_view(writes@) =~= Seq::<WriteView>::empty());
    push_block_writes(&mut writes, &reverted);
    push_edge_removals(&mut writes, &outgoing);
    push_write(&mut writes, VaultWrite::DeleteBlock(block_id));
    push_write(&mut writes, VaultWrite::RemoveName(block.name.clone()));
    assert(writes_view(writes@) =~= block_writes(
        linking(vault@, block_id).map_values(|x: BlockView| link_reverted(x, block_id, ts_view(now))),
    ) + edge_removals(keep(vault@.edges, edge_touches(block_id))) + seq![
        WriteView::DeleteBlock(block_id),
        WriteView::RemoveName(block@.name),
    ]);
    Ok(CommandResult {
        writes,
        event: BlockDeleted { block_id, edges_removed: outgoing.len(), inline_refs_reverted },
    })
}


/// After a safe delete the block is gone, its name no longer resolves, and every edge
/// out of it is removed (none went into it).
pub proof fn law_safe_delete_removes_block_and_edges(v: VaultView, now: (i64, u32), id: u128)
    requires
        delete_block_safe_writes(v, now, id) is Ok,
    ensures
        ({
            let b = block_lookup(v.blocks, id)->0;
            let after = apply_writes(v, delete_block_safe_writes(v, now, id)->Ok_0);
            &&& look(after, Artifact::Block(id)) == Holding::Block(None)
            &&& look(after, Artifact::Name(b.name)) == Holding::Name(None)
            &&& forall|k: int|
                0 <= k < v.edges.len() && edge_touches(id)(v.edges[k]) ==> look(
                    after,
                    Artifact::Edge(#[trigger] v.edges[k].id),
                ) == Holding::Edge(None)
        }),
{
    let b = block_lookup(v.blocks, id)->0;
    let bw = block_writes(linking(v, id).map_values(|x: BlockView| link_reverted(x, id, now)));
    let kept = keep(v.edges, edge_touches(id));
    let er = edge_removals(kept);
    let tail = seq![WriteView::DeleteBlock(id), WriteView::RemoveName(b.name)];
    let all = bw + er + tail;
    assert(delete_block_safe_writes(v, now, id)->Ok_0 == all);
    let after = apply_writes(v, all);
    lemma_writes_frame(v, all, Artifact::Block(id));
    lemma_writes_frame(v, all, Artifact::Name(b.name));
    assert(all.drop_last() =~= bw + er + seq![WriteView::DeleteBlock(id)]);
    let front = bw + er + seq![WriteView::DeleteBlock(id)];
    assert(front.last() == WriteView::DeleteBlock(id));
    assert(last_effect(front, Artifact::Block(id)) == Some(Holding::Block(None)));
    assert(last_effect(all, Artifact::Block(id)) == last_effect(front, Artifact::Block(id)));
    assert(last_effect(all, Artifact::Name(b.name)) == Some(Holding::Name(None)));
    assert forall|k: int| 0 <= k < v.edges.len() && edge_touches(id)(v.edges[k]) implies look(
        after,
        Artifact::Edge(#[trigger] v.edges[k].id),
    ) == Holding::Edge(None) by {
        let a = Artifact::Edge(v.edges[k].id);
        lemma_keep_complete(v.edges, edge_touches(id), k);
        let j = choose|j: int| 0 <= j < kept.len() && kept[j] == v.edges[k];
        assert(er[j] == WriteView::RemoveEdge(kept[j].id));
        lemma_last_effect(er, a);
        if last_effect(er, a) is None {
            assert(target(er[j]) != a);
        }
        let i = choose|i: int| 0 <= i < er.len() && target(#[trigger] er[i]) == a && effect(er[i])
            == last_effect(er, a)->0;
        assert(er[i] == WriteView::RemoveEdge(kept[i].id));
        lemma_last_effect_concat(bw, er, a);
        lemma_last_effect_concat(bw + er, tail, a);
        assert(last_effect(tail, a) is None) by {
            let t1 = seq![WriteView::DeleteBlock(id)];
            assert(tail.drop_last() =~= t1);
            assert(target(tail.last()) != a);
            assert(last_effect(tail, a) == last_effect(t1, a));
            assert(t1.drop_last() =~= Seq::<WriteView>::empty());
            assert(target(t1.last()) != a);
            assert(last_effect(t1, a) == last_effect(Seq::<WriteView>::empty(), a));
        }
        lemma_writes_frame(v, all, a);
    }
}

} // verus!
