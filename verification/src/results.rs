//! What use cases return: an ordered list of writes to apply atomically, plus the
//! domain event. No use case writes to any store; adapters apply the writes.

use vstd::prelude::*;

use crate::types::{Block, BlockView, Document, DocumentView, Edge};

verus! {

/// Every possible mutation of vault state. The order of a list of writes matters:
/// they are applied in sequence (for instance, reverted blocks are saved before the
/// block they referenced is deleted).
#[derive(Debug)]
pub enum VaultWrite {
    WriteBlock(Block),
    DeleteBlock(u128),
    WriteEdge(Edge),
    RemoveEdge(u128),
    WriteDocument(Document),
    DeleteDocument(u128),
    SetName { name: String, id: u128 },
    RemoveName(String),
}

pub enum WriteView {
    WriteBlock(BlockView),
    DeleteBlock(u128),
    WriteEdge(Edge),
    RemoveEdge(u128),
    WriteDocument(DocumentView),
    DeleteDocument(u128),
    SetName { name: Seq<char>, id: u128 },
    RemoveName(Seq<char>),
}

impl View for VaultWrite {
    type V = WriteView;

    open spec fn view(&self) -> WriteView {
        match self {
            VaultWrite::WriteBlock(b) => WriteView::WriteBlock(b@),
            VaultWrite::DeleteBlock(id) => WriteView::DeleteBlock(*id),
            VaultWrite::WriteEdge(e) => WriteView::WriteEdge(*e),
            VaultWrite::RemoveEdge(id) => WriteView::RemoveEdge(*id),
            VaultWrite::WriteDocument(d) => WriteView::WriteDocument(d@),
            VaultWrite::DeleteDocument(id) => WriteView::DeleteDocument(*id),
            VaultWrite::SetName { name, id } => WriteView::SetName { name: name@, id: *id },
            VaultWrite::RemoveName(name) => WriteView::RemoveName(name@),
        }
    }
}

impl Clone for VaultWrite {
    fn clone(&self) -> (r: VaultWrite)
        ensures
            r@ == self@,
    {
        match self {
            VaultWrite::WriteBlock(b) => VaultWrite::WriteBlock(b.clone()),
            VaultWrite::DeleteBlock(id) => VaultWrite::DeleteBlock(*id),
            VaultWrite::WriteEdge(e) => VaultWrite::WriteEdge(*e),
            VaultWrite::RemoveEdge(id) => VaultWrite::RemoveEdge(*id),
            VaultWrite::WriteDocument(d) => VaultWrite::WriteDocument(d.clone()),
            VaultWrite::DeleteDocument(id) => VaultWrite::DeleteDocument(*id),
            VaultWrite::SetName { name, id } => VaultWrite::SetName { name: name.clone(), id: *id },
            VaultWrite::RemoveName(name) => VaultWrite::RemoveName(name.clone()),
        }
    }
}

pub open spec fn writes_view(ws: Seq<VaultWrite>) -> Seq<WriteView> {
    ws.map_values(|w: VaultWrite| w@)
}

/// A copy of a list of writes.
pub fn clone_writes(ws: &Vec<VaultWrite>) -> (r: Vec<VaultWrite>)
    ensures
        writes_view(r@) == writes_view(ws@),
{
    let mut out: Vec<VaultWrite> = Vec::new();
    let mut i: usize = 0;
    while i < ws.len()
        invariant
            i <= ws.len(),
            writes_view(out@) == writes_view(ws@).subrange(0, i as int),
        decreases ws.len() - i,
    {
        let c = ws[i].clone();
        let ghost before = out@;
        out.push(c);
        assert(writes_view(out@) =~= writes_view(before).push(c@));
        assert(writes_view(out@) =~= writes_view(ws@).subrange(0, i + 1));
        i += 1;
    }
    assert(writes_view(ws@).subrange(0, ws.len() as int) =~= writes_view(ws@));
    out
}

/// The output of every use case: an ordered set of writes to apply atomically, plus
/// the event describing what happened.
pub struct CommandResult<E> {
    pub writes: Vec<VaultWrite>,
    pub event: E,
}

} // verus!
