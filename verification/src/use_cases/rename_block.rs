//! RenameBlock: rename a block and rewrite every `[[old name]]` reference to it.

use vstd::prelude::*;

use crate::blocks::{
    self, blocks_seq_view, capped, has_reserved_characters, name_problem, ref_total, rename_spec,
    renamed_block,
};
use crate::renaming::lemma_renamed_content_has_no_old_ref;
use crate::error::{DomainError, DomainFailure};
use crate::events::BlockRenamed;
use crate::format::{nfc, normalize_nfc};
use crate::ports::blocks_refs_name;
use crate::results::{writes_view, CommandResult, VaultWrite, WriteView};
use crate::content::inline_ref;
use crate::journal::{
    apply_write, apply_writes, block_has_id, block_id_lt, lemma_apply_one,
    lemma_apply_writes_concat, lemma_block_lookup_first, lemma_last_effect, lemma_last_effect_single,
    lemma_untouched_holding, lemma_write_frame, lemma_writes_frame, look, sound, target, untouched,
    Artifact, Holding,
};
use crate::text::{
    contains, count_all, is_first_where, keep, lemma_find_from, lemma_first_match_exists,
    lemma_first_where_found, lemma_keep_complete, lemma_keep_members, lemma_keep_pairwise,
    lemma_no_match, matches_at, pairwise,
};
use crate::time::Timestamp;
use crate::types::{block_lookup, ts_view, BlockView, Vault, VaultView};
use crate::use_cases::{block_writes, conflicting_block, name_taken_by_other, outcome, push_block_writes, push_write};

verus! {

/// The blocks whose content references `[[old]]`, with those references renamed.
pub open spec fn propagated(v: VaultView, old: Seq<char>, new: Seq<char>, now: (i64, u32)) -> Seq<BlockView> {
    keep(v.blocks, blocks_refs_name(old)).map_values(|x: BlockView| renamed_block(x, old, new, now))
}

/// The writes of renaming block `id`: the renamed block, every block whose references
/// were rewritten, then the name-index swap; or why the rename is refused.
pub open spec fn rename_block_writes(v: VaultView, now: (i64, u32), id: u128, new_name: Seq<char>) -> Result<
    Seq<WriteView>,
    DomainFailure,
> {
    let n = nfc(new_name);
    match block_lookup(v.blocks, id) {
        None => Err(DomainFailure::BlockNotFound(id)),
        Some(b) => match name_taken_by_other(v, n, id) {
            Some(other) => Err(DomainFailure::NameConflict(n, other)),
            None => match rename_spec(b, n, now) {
                Err(e) => Err(e),
                Ok(renamed) => Ok(
                    seq![WriteView::WriteBlock(renamed)] + block_writes(propagated(v, b.name, n, now))
                        + seq![WriteView::RemoveName(b.name), WriteView::SetName { name: n, id }],
                ),
            },
        },
    }
}

/// Rename a block and propagate the new name to every `[[old name]]` reference. The
/// new name is stored in NFC form.
pub fn execute(vault: &Vault, now: Timestamp, block_id: u128, new_name: &str) -> (r: Result<
    CommandResult<BlockRenamed>,
    DomainError,
>)
    ensures
        outcome(r) == rename_block_writes(vault@, ts_view(now), block_id, new_name@),
        r matches Ok(c) ==> {
            &&& block_lookup(vault@.blocks, block_id) matches Some(b)
            &&& c.event.block_id == block_id
            &&& c.event.old_name@ == b.name
            &&& c.event.new_name@ == nfc(new_name@)
            &&& c.event.refs_updated == capped(
                ref_total(keep(vault@.blocks, blocks_refs_name(b.name)), b.name),
            )
        },
{
    let new_name = normalize_nfc(new_name);
    let block = match vault.get_block(block_id) {
        Some(b) => b,
        None => {
            return Err(DomainError::BlockNotFound(block_id));
        },
    };
    if let Some(existing) = conflicting_block(vault, new_name.as_str(), block_id) {
        return Err(DomainError::NameConflict(new_name, existing));
    }
    let old_name = block.name.clone();
    let renamed = match blocks::apply_rename(block, new_name.as_str(), now) {
        Ok(b) => b,
        Err(e) => {
            return Err(e);
        },
    };
    let referencing = vault.blocks_referencing(old_name.as_str());
    let ghost refs = blocks_seq_view(referencing@);
    let (updated, refs_updated) = blocks::propagate_rename(referencing, old_name.as_str(), new_name.as_str(), now);
    let mut writes: Vec<VaultWrite> = Vec::new();
    assert(writes_view(writes@) =~= Seq::<WriteView>::empty());
    let ghost renamed_view = renamed@;
    push_write(&mut writes, VaultWrite::WriteBlock(renamed));
    push_block_writes(&mut writes, &updated);
    push_write(&mut writes, VaultWrite::RemoveName(old_name.clone()));
    push_write(&mut writes, VaultWrite::SetName { name: new_name.clone(), id: block_id });
    assert(blocks_seq_view(updated@) == propagated(vault@, old_name@, new_name@, ts_view(now)));
    assert(writes_view(writes@) =~= seq![WriteView::WriteBlock(renamed_view)] + block_writes(
        propagated(vault@, old_name@, new_name@, ts_view(now)),
    ) + seq![WriteView::RemoveName(old_name@), WriteView::SetName { name: new_name@, id: block_id }]);
    Ok(CommandResult {
        writes,
        event: BlockRenamed { block_id, old_name, new_name, refs_updated },
    })
}

/// After a rename, the block holds the new (NFC) name, the new name resolves to it and
/// the old name no longer resolves, for a sound vault in which the block does not
/// reference its own old name.
pub proof fn law_renamed_block_resolves(v: VaultView, now: (i64, u32), id: u128, new_name: Seq<char>)
    requires
        sound(v),
        rename_block_writes(v, now, id, new_name) is Ok,
        block_lookup(v.blocks, id) matches Some(b) && !contains(b.content, inline_ref(b.name)),
    ensures
        ({
            let b = block_lookup(v.blocks, id)->0;
            let after = apply_writes(v, rename_block_writes(v, now, id, new_name)->Ok_0);
            &&& look(after, Artifact::Block(id)) == Holding::Block(
                Some(BlockView { name: nfc(new_name), modified: now, ..b }),
            )
            &&& look(after, Artifact::Name(nfc(new_name))) == Holding::Name(Some(id))
            &&& b.name != nfc(new_name) ==> look(after, Artifact::Name(b.name)) == Holding::Name(None)
        }),
{
    let n = nfc(new_name);
    let b = block_lookup(v.blocks, id)->0;
    let renamed = BlockView { name: n, modified: now, ..b };
    let w0 = WriteView::WriteBlock(renamed);
    let kp = keep(v.blocks, blocks_refs_name(b.name));
    let bw = block_writes(propagated(v, b.name, n, now));
    let r = WriteView::RemoveName(b.name);
    let st = WriteView::SetName { name: n, id };
    assert(rename_block_writes(v, now, id, new_name)->Ok_0 == seq![w0] + bw + seq![r, st]);
    lemma_apply_writes_concat(v, seq![w0] + bw, seq![r, st]);
    lemma_apply_writes_concat(v, seq![w0], bw);
    lemma_apply_one(v, w0);
    let x1 = apply_write(v, w0);
    let x2 = apply_writes(x1, bw);
    lemma_apply_writes_concat(x2, seq![r], seq![st]);
    assert(seq![r] + seq![st] =~= seq![r, st]);
    lemma_apply_one(x2, r);
    lemma_apply_one(apply_write(x2, r), st);
    // no propagated block is this block
    lemma_block_lookup_first(v.blocks, id);
    let i = choose|i: int| is_first_where(v.blocks, block_has_id(id), i);
    assert(is_first_where(v.blocks, block_has_id(id), i));
    lemma_keep_members(v.blocks, blocks_refs_name(b.name));
    assert(untouched(bw, Artifact::Block(id))) by {
        assert forall|j: int| 0 <= j < bw.len() implies target(#[trigger] bw[j]) != Artifact::Block(id) by {
            assert(bw[j] == WriteView::WriteBlock(renamed_block(kp[j], b.name, n, now)));
            if kp[j].id == id {
                let p = choose|p: int| 0 <= p < v.blocks.len() && v.blocks[p] == kp[j];
                if p != i {
                    if p < i {
                        assert(block_has_id(id)(v.blocks[p]));
                    } else {
                        assert(v.blocks[i].id < v.blocks[p].id);
                    }
                }
                assert(blocks_refs_name(b.name)(kp[j]));
            }
        }
    }
    assert forall|k: Seq<char>| untouched(bw, Artifact::Name(k)) by {
        assert forall|j: int| 0 <= j < bw.len() implies target(#[trigger] bw[j]) != Artifact::Name(k) by {
            assert(bw[j] == WriteView::WriteBlock(renamed_block(kp[j], b.name, n, now)));
        }
    }
    lemma_untouched_holding(x1, bw, Artifact::Block(id));
    lemma_write_frame(v, w0, Artifact::Block(id));
    lemma_write_frame(x2, r, Artifact::Block(id));
    lemma_write_frame(apply_write(x2, r), st, Artifact::Block(id));
    lemma_write_frame(x2, r, Artifact::Name(n));
    lemma_write_frame(apply_write(x2, r), st, Artifact::Name(n));
    lemma_write_frame(x2, r, Artifact::Name(b.name));
    lemma_write_frame(apply_write(x2, r), st, Artifact::Name(b.name));
}


/// A rename reaches every other block: one whose content referenced `[[old name]]`
/// holds afterwards that content with each such reference turned into `[[new name]]`
/// (and the rename's time as `modified`); any other block is left as it was, and no
/// block appears that was not there.
pub proof fn law_rename_propagates(
    v: VaultView,
    now: (i64, u32),
    id: u128,
    new_name: Seq<char>,
    x: u128,
)
    requires
        sound(v),
        rename_block_writes(v, now, id, new_name) is Ok,
        x != id,
    ensures
        ({
            let b = block_lookup(v.blocks, id)->0;
            let after = apply_writes(v, rename_block_writes(v, now, id, new_name)->Ok_0);
            look(after, Artifact::Block(x)) == Holding::Block(
                match block_lookup(v.blocks, x) {
                    Some(bx) => Some(renamed_block(bx, b.name, nfc(new_name), now)),
                    None => None,
                },
            )
        }),
{
    let n = nfc(new_name);
    let b = block_lookup(v.blocks, id)->0;
    let renamed = BlockView { name: n, modified: now, ..b };
    let w0 = WriteView::WriteBlock(renamed);
    let f = blocks_refs_name(b.name);
    let kp = keep(v.blocks, f);
    let bw = block_writes(propagated(v, b.name, n, now));
    let r = WriteView::RemoveName(b.name);
    let st = WriteView::SetName { name: n, id };
    let all = seq![w0] + bw + seq![r, st];
    assert(rename_block_writes(v, now, id, new_name)->Ok_0 == all);
    let a = Artifact::Block(x);
    lemma_writes_frame(v, all, a);
    lemma_block_lookup_first(v.blocks, x);
    lemma_keep_members(v.blocks, f);
    lemma_keep_pairwise(v.blocks, f, block_id_lt());
    assert(pairwise(v.blocks, block_id_lt())) by {
        assert forall|i: int, j: int| 0 <= i < j < v.blocks.len() implies #[trigger] block_id_lt()(
            v.blocks[i],
            v.blocks[j],
        ) by {}
    }
    assert(forall|k: int| 0 <= k < bw.len() ==> #[trigger] bw[k] == WriteView::WriteBlock(
        renamed_block(kp[k], b.name, n, now),
    ));
    if exists|j: int| 0 <= j < kp.len() && kp[j].id == x {
        let j = choose|j: int| 0 <= j < kp.len() && kp[j].id == x;
        let p = choose|p: int| 0 <= p < v.blocks.len() && v.blocks[p] == kp[j];
        assert(is_first_where(v.blocks, block_has_id(x), p)) by {
            assert forall|q: int| 0 <= q < p implies !block_has_id(x)(v.blocks[q]) by {
                assert(v.blocks[q].id < v.blocks[p].id);
            }
        }
        lemma_first_where_found(v.blocks, block_has_id(x), p);
        assert forall|k: int| 0 <= k < all.len() && k != 1 + j implies target(#[trigger] all[k])
            != a by {
            if 1 <= k < 1 + bw.len() {
                assert(all[k] == bw[k - 1]);
                if k - 1 < j {
                    assert(block_id_lt()(kp[k - 1], kp[j]));
                } else {
                    assert(block_id_lt()(kp[j], kp[k - 1]));
                }
            }
        }
        assert(all[1 + j] == bw[j]);
        lemma_last_effect_single(all, a, 1 + j);
    } else {
        assert(untouched(all, a)) by {
            assert forall|k: int| 0 <= k < all.len() implies target(#[trigger] all[k]) != a by {
                if 1 <= k < 1 + bw.len() {
                    assert(all[k] == bw[k - 1]);
                }
            }
        }
        lemma_last_effect(all, a);
        if block_lookup(v.blocks, x) is Some {
            let bx = block_lookup(v.blocks, x)->0;
            let p = choose|p: int| is_first_where(v.blocks, block_has_id(x), p);
            assert(is_first_where(v.blocks, block_has_id(x), p));
            if f(bx) {
                lemma_keep_complete(v.blocks, f, p);
            }
            lemma_no_match(bx.content, inline_ref(b.name), 0);
        }
    }
}


/// After a rename no other block references the old name: every `[[old name]]` was
/// rewritten, for an old name without brackets that differs from the new one.
pub proof fn law_rename_leaves_no_old_reference(
    v: VaultView,
    now: (i64, u32),
    id: u128,
    new_name: Seq<char>,
    x: u128,
)
    requires
        sound(v),
        rename_block_writes(v, now, id, new_name) is Ok,
        x != id,
        block_lookup(v.blocks, id) matches Some(b) && !has_reserved_characters(b.name) && b.name
            != nfc(new_name),
    ensures
        ({
            let b = block_lookup(v.blocks, id)->0;
            let after = apply_writes(v, rename_block_writes(v, now, id, new_name)->Ok_0);
            look(after, Artifact::Block(x)) matches Holding::Block(Some(y)) ==> !contains(
                y.content,
                inline_ref(b.name),
            )
        }),
{
    let b = block_lookup(v.blocks, id)->0;
    let n = nfc(new_name);
    let p = inline_ref(b.name);
    law_rename_propagates(v, now, id, new_name, x);
    assert(name_problem(n) is None);
    if let Some(bx) = block_lookup(v.blocks, x) {
        if count_all(bx.content, p) > 0 {
            lemma_renamed_content_has_no_old_ref(bx.content, b.name, n);
        } else if contains(bx.content, p) {
            let j = choose|j: int| matches_at(bx.content, p, j);
            lemma_first_match_exists(bx.content, p, 0, j);
            lemma_find_from(bx.content, p, 0);
        }
    }
}

} // verus!
