//! Value objects and entities of a vault, and the abstract views contracts use.

use vstd::prelude::*;

use crate::text::{keys_unique, pairs_view};
use crate::time::Timestamp;

verus! {

/// The atomic unit of knowledge: a named, content-bearing entity stored as one
/// `.md` file in the vault's `blocks/` directory.
#[derive(Debug)]
pub struct Block {
    pub id: u128,
    /// Human-readable name, vault-wide unique, used in `[[wikilink]]` syntax.
    pub name: String,
    /// Markdown body. Must not contain heading syntax outside fenced code blocks.
    pub content: String,
    pub created: Timestamp,
    pub modified: Timestamp,
}

pub struct BlockView {
    pub id: u128,
    pub name: Seq<char>,
    pub content: Seq<char>,
    /// Seconds and nanoseconds of the creation instant.
    pub created: (i64, u32),
    pub modified: (i64, u32),
}

pub open spec fn ts_view(t: Timestamp) -> (i64, u32) {
    (t.spec_secs(), t.spec_nanos())
}

impl View for Block {
    type V = BlockView;

    open spec fn view(&self) -> BlockView {
        BlockView {
            id: self.id,
            name: self.name@,
            content: self.content@,
            created: ts_view(self.created),
            modified: ts_view(self.modified),
        }
    }
}

impl Clone for Block {
    fn clone(&self) -> (r: Block)
        ensures
            r@ == self@,
    {
        Block {
            id: self.id,
            name: self.name.clone(),
            content: self.content.clone(),
            created: self.created,
            modified: self.modified,
        }
    }
}

/// A directed reference between two blocks in the graph.
#[derive(Debug, Clone, Copy, PartialEq, Eq, Structural)]
pub struct Edge {
    pub id: u128,
    pub source: u128,
    pub target: u128,
}

/// A depth-3 entry within a document section.
#[derive(Debug, Clone, Copy, PartialEq, Eq, Structural)]
pub struct Subsection {
    pub block: u128,
}

/// A depth-2 entry in a document, containing zero or more subsections.
#[derive(Debug)]
pub struct Section {
    pub block: u128,
    pub subsections: Vec<Subsection>,
}

pub struct SectionView {
    pub block: u128,
    pub subsections: Seq<Subsection>,
}

impl View for Section {
    type V = SectionView;

    open spec fn view(&self) -> SectionView {
        SectionView { block: self.block, subsections: self.subsections@ }
    }
}

impl Clone for Section {
    fn clone(&self) -> (r: Section)
        ensures
            r@ == self@,
    {
        Section { block: self.block, subsections: copy_vec(&self.subsections) }
    }
}

/// An ordered composition of blocks from the heap, forming a readable document.
/// Documents are views over blocks; they never affect the graph.
#[derive(Debug)]
pub struct Document {
    pub id: u128,
    /// The block whose name becomes the document title (heading level 1).
    pub root: u128,
    pub sections: Vec<Section>,
}

pub struct DocumentView {
    pub id: u128,
    pub root: u128,
    pub sections: Seq<SectionView>,
}

pub open spec fn sections_view(s: Seq<Section>) -> Seq<SectionView> {
    s.map_values(|x: Section| x@)
}

impl View for Document {
    type V = DocumentView;

    open spec fn view(&self) -> DocumentView {
        DocumentView { id: self.id, root: self.root, sections: sections_view(self.sections@) }
    }
}

/// A copy of a vector of plain values.
pub fn copy_vec<T: Copy>(v: &Vec<T>) -> (r: Vec<T>)
    ensures
        r@ == v@,
{
    let mut r: Vec<T> = Vec::new();
    let mut i: usize = 0;
    while i < v.len()
        invariant
            i <= v.len(),
            r@ == v@.subrange(0, i as int),
        decreases v.len() - i,
    {
        r.push(v[i]);
        assert(r@ =~= v@.subrange(0, i + 1));
        i += 1;
    }
    assert(v@.subrange(0, v.len() as int) =~= v@);
    r
}

pub fn clone_sections(s: &Vec<Section>) -> (r: Vec<Section>)
    ensures
        sections_view(r@) == sections_view(s@),
{
    let mut r: Vec<Section> = Vec::new();
    let mut i: usize = 0;
    while i < s.len()
        invariant
            i <= s.len(),
            sections_view(r@) == sections_view(s@).subrange(0, i as int),
        decreases s.len() - i,
    {
        let c = s[i].clone();
        let ghost before = r@;
        r.push(c);
        assert(r@ == before.push(c));
        assert(sections_view(r@) =~= sections_view(before).push(c@));
        assert(sections_view(r@) =~= sections_view(s@).subrange(0, i + 1));
        i += 1;
    }
    assert(sections_view(s@).subrange(0, s.len() as int) =~= sections_view(s@));
    r
}

impl Clone for Document {
    fn clone(&self) -> (r: Document)
        ensures
            r@ == self@,
    {
        Document { id: self.id, root: self.root, sections: clone_sections(&self.sections) }
    }
}

/// Top-level vault metadata. The checksum chain (`previous_checksum` → `checksum`)
/// records each committed state transition.
#[derive(Debug)]
pub struct Manifest {
    pub vault_id: u128,
    pub spec_version: String,
    pub format: String,
    pub checksum: String,
    /// Checksum of the vault state before the most recent commit; `None` only for the
    /// genesis commit.
    pub previous_checksum: Option<String>,
}

pub struct ManifestView {
    pub vault_id: u128,
    pub spec_version: Seq<char>,
    pub format: Seq<char>,
    pub checksum: Seq<char>,
    pub previous_checksum: Option<Seq<char>>,
}

pub open spec fn opt_text(s: Option<String>) -> Option<Seq<char>> {
    match s {
        Some(t) => Some(t@),
        None => None,
    }
}

impl View for Manifest {
    type V = ManifestView;

    open spec fn view(&self) -> ManifestView {
        ManifestView {
            vault_id: self.vault_id,
            spec_version: self.spec_version@,
            format: self.format@,
            checksum: self.checksum@,
            previous_checksum: opt_text(self.previous_checksum),
        }
    }
}

impl Clone for Manifest {
    fn clone(&self) -> (r: Manifest)
        ensures
            r@ == self@,
    {
        Manifest {
            vault_id: self.vault_id,
            spec_version: self.spec_version.clone(),
            format: self.format.clone(),
            checksum: self.checksum.clone(),
            previous_checksum: match &self.previous_checksum {
                Some(c) => Some(c.clone()),
                None => None,
            },
        }
    }
}

/// The vault's explicit reference graph. Edges are first-class artifacts, not derived
/// from scanning content.
#[derive(Debug)]
pub struct BlockGraph {
    pub version: String,
    pub edges: Vec<Edge>,
}

impl Clone for BlockGraph {
    fn clone(&self) -> (r: BlockGraph)
        ensures
            r.version@ == self.version@,
            r.edges@ == self.edges@,
    {
        BlockGraph { version: self.version.clone(), edges: copy_vec(&self.edges) }
    }
}

pub open spec fn blocks_view(s: Seq<Block>) -> Seq<BlockView> {
    s.map_values(|b: Block| b@)
}

pub open spec fn documents_view(s: Seq<Document>) -> Seq<DocumentView> {
    s.map_values(|d: Document| d@)
}

/// Block ids strictly increasing: the heap is kept in id order, one block per id.
pub open spec fn blocks_sorted(s: Seq<BlockView>) -> bool {
    forall|i: int, j: int| 0 <= i < j < s.len() ==> s[i].id < s[j].id
}

/// Document ids strictly increasing.
pub open spec fn documents_sorted(s: Seq<DocumentView>) -> bool {
    forall|i: int, j: int| 0 <= i < j < s.len() ==> s[i].id < s[j].id
}

/// Read-only snapshot of a fully loaded vault: the block heap (in id order), the graph,
/// the documents (in id order) and the name index.
#[derive(Debug)]
pub struct Vault {
    pub manifest: Manifest,
    pub blocks: Vec<Block>,
    pub graph: BlockGraph,
    pub documents: Vec<Document>,
    /// Name-to-id index, one entry per name.
    pub names: Vec<(String, u128)>,
    /// In-memory mutation counter.
    pub version: u64,
}

pub struct VaultView {
    pub manifest: ManifestView,
    pub blocks: Seq<BlockView>,
    pub edges: Seq<Edge>,
    pub graph_version: Seq<char>,
    pub documents: Seq<DocumentView>,
    pub names: Seq<(Seq<char>, u128)>,
}

impl View for Vault {
    type V = VaultView;

    open spec fn view(&self) -> VaultView {
        VaultView {
            manifest: self.manifest@,
            blocks: blocks_view(self.blocks@),
            edges: self.graph.edges@,
            graph_version: self.graph.version@,
            documents: documents_view(self.documents@),
            names: pairs_view(self.names@),
        }
    }
}

impl VaultView {
    /// The vault's own structure: heap and documents in id order, names distinct.
    pub open spec fn wf(self) -> bool {
        &&& blocks_sorted(self.blocks)
        &&& documents_sorted(self.documents)
        &&& keys_unique(self.names)
    }
}

/// `i` is the first position of a block with id `id`.
pub open spec fn is_first_block(bs: Seq<BlockView>, id: u128, i: int) -> bool {
    0 <= i < bs.len() && bs[i].id == id && forall|j: int| 0 <= j < i ==> bs[j].id != id
}

/// The (first) block with id `id`.
pub open spec fn block_lookup(bs: Seq<BlockView>, id: u128) -> Option<BlockView> {
    if exists|i: int| is_first_block(bs, id, i) {
        Some(bs[choose|i: int| is_first_block(bs, id, i)])
    } else {
        None
    }
}

pub proof fn lemma_block_lookup_found(bs: Seq<BlockView>, id: u128, i: int)
    requires
        is_first_block(bs, id, i),
    ensures
        block_lookup(bs, id) == Some(bs[i]),
{
    let k = choose|k: int| is_first_block(bs, id, k);
    assert(is_first_block(bs, id, k));
    if k < i {
        assert(bs[k].id != id);
    }
    if i < k {
        assert(bs[i].id != id);
    }
}

pub proof fn lemma_block_lookup_absent(bs: Seq<BlockView>, id: u128)
    requires
        forall|j: int| 0 <= j < bs.len() ==> bs[j].id != id,
    ensures
        block_lookup(bs, id) is None,
{
    if exists|i: int| is_first_block(bs, id, i) {
        let k = choose|k: int| is_first_block(bs, id, k);
        assert(bs[k].id == id);
    }
}

/// The block with id `id` in `blocks`, if any (the first, should there be several).
pub fn find_block(blocks: &Vec<Block>, id: u128) -> (r: Option<&Block>)
    ensures
        match r {
            Some(b) => block_lookup(blocks_view(blocks@), id) == Some(b@),
            None => block_lookup(blocks_view(blocks@), id) is None,
        },
{
    let ghost bs = blocks_view(blocks@);
    let mut i: usize = 0;
    while i < blocks.len()
        invariant
            i <= blocks.len(),
            bs == blocks_view(blocks@),
            forall|j: int| 0 <= j < i ==> bs[j].id != id,
        decreases blocks.len() - i,
    {
        if blocks[i].id == id {
            proof {
                lemma_block_lookup_found(bs, id, i as int);
            }
            return Some(&blocks[i]);
        }
        i += 1;
    }
    proof {
        lemma_block_lookup_absent(bs, id);
    }
    None
}

} // verus!
