//! Block factory and mutations, enforcing the name and no-heading invariants.

use vstd::prelude::*;

use crate::content::{
    find_heading_outside_fence, first_heading, inline_ref, rename_reference, renamed_content,
    revert_reference, reverted_content,
};
use crate::error::{DomainError, DomainFailure};
use crate::text::{chars_of, count_all};
use crate::time::Timestamp;
use crate::types::{ts_view, Block, BlockView};

verus! {

/// `[` or `]` in a name: reserved for link syntax.
pub open spec fn has_reserved_characters(name: Seq<char>) -> bool {
    name.contains('[') || name.contains(']')
}

/// `%` in a name: ambiguous with percent-encoding in file names.
pub open spec fn has_percent(name: Seq<char>) -> bool {
    name.contains('%')
}

/// The first rule a block name breaks, if any.
pub open spec fn name_problem(name: Seq<char>) -> Option<DomainFailure> {
    if name.len() == 0 {
        Some(DomainFailure::EmptyName)
    } else if has_reserved_characters(name) {
        Some(DomainFailure::NameContainsReservedCharacters)
    } else if has_percent(name) {
        Some(DomainFailure::NameContainsPercent)
    } else {
        None
    }
}

pub open spec fn block_result(r: Result<Block, DomainError>) -> Result<BlockView, DomainFailure> {
    match r {
        Ok(b) => Ok(b@),
        Err(e) => Err(e@),
    }
}

/// A new block, or the first rule its name or content breaks.
pub open spec fn create_spec(id: u128, name: Seq<char>, content: Seq<char>, now: (i64, u32)) -> Result<
    BlockView,
    DomainFailure,
> {
    match name_problem(name) {
        Some(e) => Err(e),
        None => if first_heading(content) is Some {
            Err(DomainFailure::HeadingInContent)
        } else {
            Ok(BlockView { id, name, content, created: now, modified: now })
        },
    }
}

/// The block renamed, or the first rule the new name breaks.
pub open spec fn rename_spec(b: BlockView, new_name: Seq<char>, now: (i64, u32)) -> Result<
    BlockView,
    DomainFailure,
> {
    match name_problem(new_name) {
        Some(e) => Err(e),
        None => Ok(BlockView { name: new_name, modified: now, ..b }),
    }
}

/// The block with new content, or `HeadingInContent`.
pub open spec fn content_spec(b: BlockView, content: Seq<char>, now: (i64, u32)) -> Result<
    BlockView,
    DomainFailure,
> {
    if first_heading(content) is Some {
        Err(DomainFailure::HeadingInContent)
    } else {
        Ok(BlockView { content, modified: now, ..b })
    }
}

fn has_char(s: &str, c: char) -> (r: bool)
    ensures
        r == s@.contains(c),
{
    let v = chars_of(s);
    let mut i: usize = 0;
    while i < v.len()
        invariant
            i <= v.len(),
            v@ == s@,
            forall|j: int| 0 <= j < i ==> v@[j] != c,
        decreases v.len() - i,
    {
        if v[i] == c {
            return true;
        }
        i += 1;
    }
    false
}

/// Whether a name holds characters reserved for link syntax (`[`, `]`).
pub fn name_has_reserved_characters(name: &str) -> (r: bool)
    ensures
        r == has_reserved_characters(name@),
{
    has_char(name, '[') || has_char(name, ']')
}

/// Whether a name holds `%`, which is disallowed in block names.
pub fn name_contains_percent(name: &str) -> (r: bool)
    ensures
        r == has_percent(name@),
{
    has_char(name, '%')
}

fn check_name(name: &str) -> (r: Result<(), DomainError>)
    ensures
        match r {
            Ok(()) => name_problem(name@) is None,
            Err(e) => name_problem(name@) == Some(e@),
        },
{
    if name.is_empty() {
        return Err(DomainError::EmptyName);
    }
    if name_has_reserved_characters(name) {
        return Err(DomainError::NameContainsReservedCharacters);
    }
    if name_contains_percent(name) {
        return Err(DomainError::NameContainsPercent);
    }
    Ok(())
}

/// Create a new block, enforcing the name rules and the no-heading rule. The time is
/// passed in so the domain stays deterministic.
pub fn create(id: u128, name: &str, content_str: &str, now: Timestamp) -> (r: Result<
    Block,
    DomainError,
>)
    ensures
        block_result(r) == create_spec(id, name@, content_str@, ts_view(now)),
{
    check_name(name)?;
    if find_heading_outside_fence(content_str).is_some() {
        return Err(DomainError::HeadingInContent);
    }
    Ok(
        Block {
            id,
            name: name.to_owned(),
            content: content_str.to_owned(),
            created: now,
            modified: now,
        },
    )
}

/// Apply a rename to a block, updating `modified`. Rejects empty or invalid names.
pub fn apply_rename(block: Block, new_name: &str, now: Timestamp) -> (r: Result<Block, DomainError>)
    ensures
        block_result(r) == rename_spec(block@, new_name@, ts_view(now)),
{
    check_name(new_name)?;
    let mut block = block;
    block.name = new_name.to_owned();
    block.modified = now;
    Ok(block)
}

/// Replace a block's content, enforcing the no-heading rule.
pub fn apply_content(block: Block, content_str: &str, now: Timestamp) -> (r: Result<
    Block,
    DomainError,
>)
    ensures
        block_result(r) == content_spec(block@, content_str@, ts_view(now)),
{
    if find_heading_outside_fence(content_str).is_some() {
        return Err(DomainError::HeadingInContent);
    }
    let mut block = block;
    block.content = content_str.to_owned();
    block.modified = now;
    Ok(block)
}

/// A referencing block after a rename: its `[[old]]` references (and their footer
/// annotations) renamed, `modified` set, when it had any.
pub open spec fn renamed_block(b: BlockView, old_name: Seq<char>, new_name: Seq<char>, now: (
    i64,
    u32,
)) -> BlockView {
    if count_all(b.content, inline_ref(old_name)) > 0 {
        BlockView { content: renamed_content(b.content, old_name, new_name), modified: now, ..b }
    } else {
        b
    }
}

/// A referencing block after its target is deleted: its `[[name]]` references turned to
/// plain text and the target's footer annotation removed, `modified` set, when it had any.
pub open spec fn reverted_block(b: BlockView, name: Seq<char>, target: u128, now: (i64, u32)) -> BlockView {
    if count_all(b.content, inline_ref(name)) > 0 {
        BlockView { content: reverted_content(b.content, name, target), modified: now, ..b }
    } else {
        b
    }
}

/// Total number of `[[name]]` references in the blocks.
pub open spec fn ref_total(bs: Seq<BlockView>, name: Seq<char>) -> nat
    decreases bs.len(),
{
    if bs.len() == 0 {
        0
    } else {
        ref_total(bs.drop_last(), name) + count_all(bs.last().content, inline_ref(name))
    }
}

/// `n` capped at `usize::MAX`.
pub open spec fn capped(n: nat) -> usize {
    if n <= usize::MAX {
        n as usize
    } else {
        usize::MAX
    }
}

pub open spec fn blocks_seq_view(s: Seq<Block>) -> Seq<BlockView> {
    s.map_values(|b: Block| b@)
}

/// Rename `[[old_name]]` references in the referencing blocks. Returns the updated blocks
/// (in the same order) and the number of references renamed (capped at `usize::MAX`).
pub fn propagate_rename(referencing: Vec<Block>, old_name: &str, new_name: &str, now: Timestamp) -> (r: (
    Vec<Block>,
    usize,
))
    ensures
        blocks_seq_view(r.0@) == blocks_seq_view(referencing@).map_values(
            |b: BlockView| renamed_block(b, old_name@, new_name@, ts_view(now)),
        ),
        r.1 == capped(ref_total(blocks_seq_view(referencing@), old_name@)),
{
    let ghost src = blocks_seq_view(referencing@);
    let ghost f = |b: BlockView| renamed_block(b, old_name@, new_name@, ts_view(now));
    let mut out: Vec<Block> = Vec::new();
    let mut total: usize = 0;
    let mut i: usize = 0;
    while i < referencing.len()
        invariant
            i <= referencing.len(),
            src == blocks_seq_view(referencing@),
            f == (|b: BlockView| renamed_block(b, old_name@, new_name@, ts_view(now))),
            blocks_seq_view(out@) == src.subrange(0, i as int).map_values(f),
            total == capped(ref_total(src.subrange(0, i as int), old_name@)),
        decreases referencing.len() - i,
    {
        let mut b = referencing[i].clone();
        let (content, n) = rename_reference(b.content.as_str(), old_name, new_name);
        if n > 0 {
            b.content = content;
            b.modified = now;
        }
        total = total.saturating_add(n);
        let ghost before = out@;
        out.push(b);
        proof {
            assert(src.subrange(0, i + 1).drop_last() =~= src.subrange(0, i as int));
            assert(blocks_seq_view(out@) =~= blocks_seq_view(before).push(b@));
            assert(src.subrange(0, i + 1).map_values(f) =~= src.subrange(0, i as int).map_values(
                f,
            ).push(f(src[i as int])));
        }
        i += 1;
    }
    assert(src.subrange(0, referencing.len() as int) =~= src);
    (out, total)
}

/// Revert `[[name]]` references to the deleted block `target` in the referencing blocks.
/// Returns the updated blocks (in the same order) and the number of references reverted
/// (capped at `usize::MAX`).
pub fn revert_refs(referencing: Vec<Block>, name: &str, target: u128, now: Timestamp) -> (r: (
    Vec<Block>,
    usize,
))
    ensures
        blocks_seq_view(r.0@) == blocks_seq_view(referencing@).map_values(
            |b: BlockView| reverted_block(b, name@, target, ts_view(now)),
        ),
        r.1 == capped(ref_total(blocks_seq_view(referencing@), name@)),
{
    let ghost src = blocks_seq_view(referencing@);
    let ghost f = |b: BlockView| reverted_block(b, name@, target, ts_view(now));
    let mut out: Vec<Block> = Vec::new();
    let mut total: usize = 0;
    let mut i: usize = 0;
    while i < referencing.len()
        invariant
            i <= referencing.len(),
            src == blocks_seq_view(referencing@),
            f == (|b: BlockView| reverted_block(b, name@, target, ts_view(now))),
            blocks_seq_view(out@) == src.subrange(0, i as int).map_values(f),
            total == capped(ref_total(src.subrange(0, i as int), name@)),
        decreases referencing.len() - i,
    {
        let mut b = referencing[i].clone();
        let (content, n) = revert_reference(b.content.as_str(), name, target);
        if n > 0 {
            b.content = content;
            b.modified = now;
        }
        total = total.saturating_add(n);
        let ghost before = out@;
        out.push(b);
        proof {
            assert(src.subrange(0, i + 1).drop_last() =~= src.subrange(0, i as int));
            assert(blocks_seq_view(out@) =~= blocks_seq_view(before).push(b@));
            assert(src.subrange(0, i + 1).map_values(f) =~= src.subrange(0, i as int).map_values(
                f,
            ).push(f(src[i as int])));
        }
        i += 1;
    }
    assert(src.subrange(0, referencing.len() as int) =~= src);
    (out, total)
}

} // verus!
