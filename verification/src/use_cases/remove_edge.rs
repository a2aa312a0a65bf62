//! RemoveEdge: remove an edge from the graph.

use vstd::prelude::*;

use crate::error::{DomainError, DomainFailure};
use crate::events::EdgeRemoved;
use crate::ports::edge_has_id;
use crate::results::{writes_view, CommandResult, VaultWrite, WriteView};
use crate::text::first_where;
use crate::journal::{apply_write, apply_writes, lemma_apply_one, lemma_write_frame, look, Artifact};
use crate::types::{Edge, Vault, VaultView};
use crate::use_cases::add_edge::add_edge_writes;
use crate::use_cases::{outcome, push_write};

verus! {

pub open spec fn remove_edge_writes(v: VaultView, id: u128) -> Result<Seq<WriteView>, DomainFailure> {
    if first_where(v.edges, edge_has_id(id)) is None {
        Err(DomainFailure::EdgeNotFound(id))
    } else {
        Ok(seq![WriteView::RemoveEdge(id)])
    }
}

/// Remove an edge; refused when no edge has that id.
pub fn execute(vault: &Vault, edge_id: u128) -> (r: Result<CommandResult<EdgeRemoved>, DomainError>)
    ensures
        outcome(r) == remove_edge_writes(vault@, edge_id),
        r matches Ok(c) ==> c.event.edge_id == edge_id,
{
    if vault.edge_with_id(edge_id).is_none() {
        return Err(DomainError::EdgeNotFound(edge_id));
    }
    let mut writes: Vec<VaultWrite> = Vec::new();
    assert(writes_view(writes@) =~= Seq::<WriteView>::empty());
    push_write(&mut writes, VaultWrite::RemoveEdge(edge_id));
    assert(writes_view(writes@) =~= seq![WriteView::RemoveEdge(edge_id)]);
    Ok(CommandResult { writes, event: EdgeRemoved { edge_id } })
}


/// Unlinking the edge just linked undoes the link: every edge lookup is as before.
pub proof fn law_unlink_undoes_link(v: VaultView, id: u128, source: u128, target: u128, e: u128)
    requires
        add_edge_writes(v, id, source, target) is Ok,
    ensures
        ({
            let linked = apply_writes(v, add_edge_writes(v, id, source, target)->Ok_0);
            &&& remove_edge_writes(linked, id) is Ok
            &&& look(apply_writes(linked, remove_edge_writes(linked, id)->Ok_0), Artifact::Edge(e))
                == look(v, Artifact::Edge(e))
        }),
{
    let w = WriteView::WriteEdge(Edge { id, source, target });
    let r = WriteView::RemoveEdge(id);
    lemma_apply_one(v, w);
    let linked = apply_write(v, w);
    lemma_write_frame(v, w, Artifact::Edge(id));
    assert(remove_edge_writes(linked, id) is Ok);
    lemma_apply_one(linked, r);
    lemma_write_frame(linked, r, Artifact::Edge(e));
    lemma_write_frame(v, w, Artifact::Edge(e));
}

} // verus!
