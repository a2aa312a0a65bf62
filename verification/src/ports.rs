//! Port traits: the read interface of a vault store, the clock, the manifest store and
//! the mutation gate. The in-memory `Vault` implements every read port, with the
//! lookups that the use cases call stated as its own methods. The use cases themselves
//! take a loaded `&Vault`, not these traits: another store is loaded into a `Vault`
//! first.

use vstd::prelude::*;

use crate::block_file::{content_references_block, link_tail};
use crate::content::inline_ref;
use crate::error::DomainError;
use crate::text::{
    assoc_get, assoc_has, chars_of, contains, extend_all, first_where, keep, lemma_first_where_absent, lemma_first_where_found, lowercase, pairs_view, string_of,
    to_lower,
};
use crate::time::Timestamp;
use crate::types::{blocks_view, documents_view, Block, BlockView, Document, DocumentView, Edge, Manifest, Vault};

verus! {

/// Source of the current time.
pub trait Clock {
    fn now(&self) -> Timestamp;
}

/// The system clock.
pub struct SystemClock;

impl Clock for SystemClock {
    fn now(&self) -> Timestamp {
        Timestamp::now()
    }
}

/// Read-only access to the block heap.
pub trait BlockStore {
    fn get(&self, id: u128) -> Option<Block>;

    fn list(&self) -> Vec<Block>;

    /// All blocks whose content contains `[[name]]`.
    fn find_by_ref(&self, name: &str) -> Vec<Block>;

    /// All blocks whose content holds a link `[...](block:<target>)`.
    fn find_by_target(&self, target: u128) -> Vec<Block>;
}

/// Read-only access to the reference graph.
pub trait GraphStore {
    fn get_edge(&self, id: u128) -> Option<Edge>;

    fn incoming(&self, block_id: u128) -> Vec<Edge>;

    /// All edges where `source == block_id` or `target == block_id`.
    fn edges_for(&self, block_id: u128) -> Vec<Edge>;
}

/// Read-only access to document definitions.
pub trait DocumentStore {
    fn get(&self, id: u128) -> Option<Document>;

    fn list_ids(&self) -> Vec<u128>;
}

/// Read-only name → id index (vault-wide unique).
pub trait NameIndex {
    fn resolve(&self, name: &str) -> Option<u128>;

    /// Case-insensitive lookup: `(stored_name, id)` of a name that matches.
    fn resolve_ignore_case(&self, name: &str) -> Option<(String, u128)>;
}

/// Read and write the vault manifest (the commit snapshot).
pub trait ManifestStore {
    fn get(&self) -> Option<Manifest>;

    fn write(&self, manifest: &Manifest);
}

/// The mutation gate: whether a mutation may proceed.
pub trait MutationGate {
    fn allow_mutation(&self, expected_checksum: Option<String>) -> Result<(), DomainError>;
}

pub open spec fn blocks_refs_name(name: Seq<char>) -> spec_fn(BlockView) -> bool {
    |b: BlockView| contains(b.content, inline_ref(name))
}

pub open spec fn blocks_link_target(target: u128) -> spec_fn(BlockView) -> bool {
    |b: BlockView| contains(b.content, link_tail(target))
}

pub open spec fn edge_has_id(id: u128) -> spec_fn(Edge) -> bool {
    |e: Edge| e.id == id
}

pub open spec fn edge_into(id: u128) -> spec_fn(Edge) -> bool {
    |e: Edge| e.target == id
}

pub open spec fn edge_from(id: u128) -> spec_fn(Edge) -> bool {
    |e: Edge| e.source == id
}

pub open spec fn edge_touches(id: u128) -> spec_fn(Edge) -> bool {
    |e: Edge| e.source == id || e.target == id
}

pub open spec fn document_has_id(id: u128) -> spec_fn(DocumentView) -> bool {
    |d: DocumentView| d.id == id
}

pub open spec fn name_matches_ignore_case(name: Seq<char>) -> spec_fn((Seq<char>, u128)) -> bool {
    |e: (Seq<char>, u128)| lowercase(e.0) == lowercase(name)
}

pub open spec fn opt_block_view(r: Option<Block>) -> Option<BlockView> {
    match r {
        Some(b) => Some(b@),
        None => None,
    }
}

pub open spec fn opt_document_view(r: Option<Document>) -> Option<DocumentView> {
    match r {
        Some(d) => Some(d@),
        None => None,
    }
}

/// The blocks of `blocks` for which `test` holds, cloned, in order.
fn blocks_where(blocks: &Vec<Block>, name: &Vec<char>, target: u128, by_target: bool) -> (r: Vec<Block>)
    ensures
        by_target ==> blocks_view(r@) == keep(blocks_view(blocks@), blocks_link_target(target)),
        !by_target ==> blocks_view(r@) == keep(
            blocks_view(blocks@),
            blocks_refs_name(name@),
        ),
{
    let ghost bs = blocks_view(blocks@);
    let ghost f = if by_target {
        blocks_link_target(target)
    } else {
        blocks_refs_name(name@)
    };
    let mut pat: Vec<char> = Vec::new();
    pat.push('[');
    pat.push('[');
    extend_all(&mut pat, name);
    pat.push(']');
    pat.push(']');
    assert(pat@ =~= inline_ref(name@));
    let pattern = string_of(&pat);
    let mut out: Vec<Block> = Vec::new();
    let mut i: usize = 0;
    while i < blocks.len()
        invariant
            i <= blocks.len(),
            bs == blocks_view(blocks@),
            pattern@ == inline_ref(name@),
            f == (if by_target {
                blocks_link_target(target)
            } else {
                blocks_refs_name(name@)
            }),
            blocks_view(out@) == keep(bs.subrange(0, i as int), f),
        decreases blocks.len() - i,
    {
        let b = &blocks[i];
        let hit = if by_target {
            content_references_block(b.content.as_str(), target)
        } else {
            contains_text(b.content.as_str(), pattern.as_str())
        };
        assert(hit == f(b@));
        assert(bs.subrange(0, i + 1).drop_last() =~= bs.subrange(0, i as int));
        assert(bs.subrange(0, i + 1).last() == b@);
        if hit {
            let c = b.clone();
            let ghost before = out@;
            out.push(c);
            assert(blocks_view(out@) =~= blocks_view(before).push(c@));
        }
        i += 1;
    }
    assert(bs.subrange(0, blocks.len() as int) =~= bs);
    out
}

/// Whether `s` contains `p`.
pub fn contains_text(s: &str, p: &str) -> (r: bool)
    ensures
        r == contains(s@, p@),
{
    let v = chars_of(s);
    let pv = chars_of(p);
    proof {
        crate::text::lemma_find_from(v@, pv@, 0);
    }
    match crate::text::find_in(&v, &pv, 0) {
        Some(_) => true,
        None => {
            assert forall|j: int| !crate::text::matches_at(v@, pv@, j) by {
                if j < 0 {
                }
            }
            false
        },
    }
}

fn clone_blocks(blocks: &Vec<Block>) -> (r: Vec<Block>)
    ensures
        blocks_view(r@) == blocks_view(blocks@),
{
    let mut out: Vec<Block> = Vec::new();
    let mut i: usize = 0;
    while i < blocks.len()
        invariant
            i <= blocks.len(),
            blocks_view(out@) == blocks_view(blocks@).subrange(0, i as int),
        decreases blocks.len() - i,
    {
        let c = blocks[i].clone();
        let ghost before = out@;
        out.push(c);
        assert(blocks_view(out@) =~= blocks_view(before).push(c@));
        assert(blocks_view(out@) =~= blocks_view(blocks@).subrange(0, i + 1));
        i += 1;
    }
    assert(blocks_view(blocks@).subrange(0, blocks.len() as int) =~= blocks_view(blocks@));
    out
}

fn edges_where(edges: &Vec<Edge>, id: u128, mode: u8) -> (r: Vec<Edge>)
    ensures
        mode == 0 ==> r@ == keep(edges@, edge_into(id)),
        mode == 1 ==> r@ == keep(edges@, edge_from(id)),
        mode >= 2 ==> r@ == keep(edges@, edge_touches(id)),
{
    let ghost f = if mode == 0 {
        edge_into(id)
    } else if mode == 1 {
        edge_from(id)
    } else {
        edge_touches(id)
    };
    let mut out: Vec<Edge> = Vec::new();
    let mut i: usize = 0;
    while i < edges.len()
        invariant
            i <= edges.len(),
            f == (if mode == 0 {
                edge_into(id)
            } else if mode == 1 {
                edge_from(id)
            } else {
                edge_touches(id)
            }),
            out@ == keep(edges@.subrange(0, i as int), f),
        decreases edges.len() - i,
    {
        let e = edges[i];
        let hit = if mode == 0 {
            e.target == id
        } else if mode == 1 {
            e.source == id
        } else {
            e.source == id || e.target == id
        };
        assert(hit == f(e));
        assert(edges@.subrange(0, i + 1).drop_last() =~= edges@.subrange(0, i as int));
        if hit {
            out.push(e);
        }
        i += 1;
    }
    assert(edges@.subrange(0, edges.len() as int) =~= edges@);
    out
}

impl Vault {
    /// Edges into `block_id`, in graph order.
    pub fn incoming_edges(&self, block_id: u128) -> (r: Vec<Edge>)
        ensures
            r@ == keep(self@.edges, edge_into(block_id)),
    {
        edges_where(&self.graph.edges, block_id, 0)
    }

    /// Edges out of `block_id`, in graph order.
    pub fn outgoing_edges(&self, block_id: u128) -> (r: Vec<Edge>)
        ensures
            r@ == keep(self@.edges, edge_from(block_id)),
    {
        edges_where(&self.graph.edges, block_id, 1)
    }

    /// Edges into or out of `block_id`, in graph order.
    pub fn touching_edges(&self, block_id: u128) -> (r: Vec<Edge>)
        ensures
            r@ == keep(self@.edges, edge_touches(block_id)),
    {
        edges_where(&self.graph.edges, block_id, 2)
    }
}

impl Vault {
    /// The block with id `id`.
    pub fn get_block(&self, id: u128) -> (r: Option<Block>)
        ensures
            opt_block_view(r) == crate::types::block_lookup(self@.blocks, id),
    {
        match crate::types::find_block(&self.blocks, id) {
            Some(b) => Some(b.clone()),
            None => None,
        }
    }

    /// All blocks, in heap order.
    pub fn all_blocks(&self) -> (r: Vec<Block>)
        ensures
            blocks_view(r@) == self@.blocks,
    {
        clone_blocks(&self.blocks)
    }

    /// Blocks whose content contains `[[name]]`, in heap order.
    pub fn blocks_referencing(&self, name: &str) -> (r: Vec<Block>)
        ensures
            blocks_view(r@) == keep(self@.blocks, blocks_refs_name(name@)),
    {
        let nv = chars_of(name);
        blocks_where(&self.blocks, &nv, 0, false)
    }

    /// Blocks whose content links to `target`, in heap order.
    pub fn blocks_linking(&self, target: u128) -> (r: Vec<Block>)
        ensures
            blocks_view(r@) == keep(self@.blocks, blocks_link_target(target)),
    {
        let nv: Vec<char> = Vec::new();
        blocks_where(&self.blocks, &nv, target, true)
    }
}

impl Vault {
    /// The (first) edge with id `id`.
    pub fn edge_with_id(&self, id: u128) -> (r: Option<Edge>)
        ensures
            r == first_where(self@.edges, edge_has_id(id)),
    {
        let ghost f = edge_has_id(id);
        let mut i: usize = 0;
        while i < self.graph.edges.len()
            invariant
                i <= self.graph.edges.len(),
                f == edge_has_id(id),
                forall|j: int| 0 <= j < i ==> !f(self.graph.edges@[j]),
            decreases self.graph.edges.len() - i,
        {
            if self.graph.edges[i].id == id {
                proof {
                    lemma_first_where_found(self@.edges, f, i as int);
                }
                return Some(self.graph.edges[i]);
            }
            i += 1;
        }
        proof {
            lemma_first_where_absent(self@.edges, f);
        }
        None
    }


}

impl Vault {
    /// The (first) document with id `id`.
    pub fn get_document(&self, id: u128) -> (r: Option<Document>)
        ensures
            opt_document_view(r) == first_where(self@.documents, document_has_id(id)),
    {
        let ghost ds = self@.documents;
        let ghost f = document_has_id(id);
        let mut i: usize = 0;
        while i < self.documents.len()
            invariant
                i <= self.documents.len(),
                ds == documents_view(self.documents@),
                f == document_has_id(id),
                forall|j: int| 0 <= j < i ==> !f(ds[j]),
            decreases self.documents.len() - i,
        {
            if self.documents[i].id == id {
                proof {
                    lemma_first_where_found(ds, f, i as int);
                }
                return Some(self.documents[i].clone());
            }
            i += 1;
        }
        proof {
            lemma_first_where_absent(ds, f);
        }
        None
    }

    /// The document ids, in order.
    pub fn document_ids(&self) -> (r: Vec<u128>)
        ensures
            r@ == self@.documents.map_values(|d: DocumentView| d.id),
    {
        let ghost ds = self@.documents;
        let mut out: Vec<u128> = Vec::new();
        let mut i: usize = 0;
        while i < self.documents.len()
            invariant
                i <= self.documents.len(),
                ds == documents_view(self.documents@),
                out@ == ds.subrange(0, i as int).map_values(|d: DocumentView| d.id),
            decreases self.documents.len() - i,
        {
            out.push(self.documents[i].id);
            assert(out@ =~= ds.subrange(0, i + 1).map_values(|d: DocumentView| d.id));
            i += 1;
        }
        assert(ds.subrange(0, self.documents.len() as int) =~= ds);
        out
    }
}

impl Vault {
    /// The id the name index holds for `name`.
    pub fn resolve_name(&self, name: &str) -> (r: Option<u128>)
        ensures
            self@.wf() ==> r == assoc_get(self@.names, name@),
    {
        let ghost s = self@.names;
        let key = name.to_owned();
        let mut i: usize = 0;
        while i < self.names.len()
            invariant
                i <= self.names.len(),
                s == pairs_view(self.names@),
                key@ == name@,
                forall|j: int| 0 <= j < i ==> s[j].0 != name@,
            decreases self.names.len() - i,
        {
            if self.names[i].0 == key {
                proof {
                    assert(s[i as int].0 == name@);
                    if self@.wf() {
                        assert(assoc_has(s, name@));
                        let ci = choose|j: int| 0 <= j < s.len() && s[j].0 == name@;
                        if ci != i {
                            assert(s[ci].0 == s[i as int].0);
                        }
                    }
                }
                return Some(self.names[i].1);
            }
            i += 1;
        }
        proof {
            assert(!assoc_has(s, name@));
        }
        None
    }

    /// The first index entry whose name matches `name` ignoring case.
    pub fn resolve_name_ignore_case(&self, name: &str) -> (r: Option<(String, u128)>)
        ensures
            match r {
                Some((n, id)) => first_where(self@.names, name_matches_ignore_case(name@)) == Some(
                    (n@, id),
                ),
                None => first_where(self@.names, name_matches_ignore_case(name@)) is None,
            },
    {
        let ghost s = self@.names;
        let ghost f = name_matches_ignore_case(name@);
        let key = to_lower(name);
        let mut i: usize = 0;
        while i < self.names.len()
            invariant
                i <= self.names.len(),
                s == pairs_view(self.names@),
                f == name_matches_ignore_case(name@),
                key@ == lowercase(name@),
                forall|j: int| 0 <= j < i ==> !f(s[j]),
            decreases self.names.len() - i,
        {
            let k = to_lower(self.names[i].0.as_str());
            if k == key {
                proof {
                    lemma_first_where_found(s, f, i as int);
                }
                return Some((self.names[i].0.clone(), self.names[i].1));
            }
            i += 1;
        }
        proof {
            lemma_first_where_absent(s, f);
        }
        None
    }
}


impl GraphStore for Vault {
    fn get_edge(&self, id: u128) -> (r: Option<Edge>)
        ensures
            r == first_where(self@.edges, edge_has_id(id)),
    {
        self.edge_with_id(id)
    }

    fn incoming(&self, block_id: u128) -> (r: Vec<Edge>)
        ensures
            r@ == keep(self@.edges, edge_into(block_id)),
    {
        self.incoming_edges(block_id)
    }

    fn edges_for(&self, block_id: u128) -> (r: Vec<Edge>)
        ensures
            r@ == keep(self@.edges, edge_touches(block_id)),
    {
        self.touching_edges(block_id)
    }
}

impl NameIndex for Vault {
    fn resolve(&self, name: &str) -> (r: Option<u128>)
        ensures
            self@.wf() ==> r == assoc_get(self@.names, name@),
    {
        self.resolve_name(name)
    }

    fn resolve_ignore_case(&self, name: &str) -> (r: Option<(String, u128)>)
        ensures
            match r {
                Some((n, id)) => first_where(self@.names, name_matches_ignore_case(name@)) == Some(
                    (n@, id),
                ),
                None => first_where(self@.names, name_matches_ignore_case(name@)) is None,
            },
    {
        self.resolve_name_ignore_case(name)
    }
}

/// The ports a use-case surface reads: the loaded vault, and the clock that stamps
/// blocks.
pub struct VaultPorts<'a, C> {
    pub vault: &'a Vault,
    pub clock: &'a C,
}

} // verus!
