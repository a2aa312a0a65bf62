//! The commit journal: applying writes to a vault in memory, the before image of a
//! commit, the journal itself, and crash recovery from it.

use vstd::prelude::*;

use crate::checksum::{checksum_of, compute};
use crate::ports::edge_has_id;
use crate::results::{writes_view, VaultWrite, WriteView};
use crate::text::{
    first_where, is_first_where, keep, key_is, lemma_first_where_absent, lemma_first_where_concat,
    lemma_first_where_found, lemma_first_where_keep, lemma_first_where_keep_none,
    lemma_first_where_push, lemma_first_where_update, keys_unique, lemma_keep_members,
    lemma_keep_pairwise, pairwise,
};
use crate::types::{
    blocks_view, documents_view, Block, BlockView, Document, DocumentView, Edge, Manifest, Vault,
    VaultView,
};

verus! {

// ---- the effect of one write on a vault ---------------------------------------------------

pub open spec fn block_below(id: u128) -> spec_fn(BlockView) -> bool {
    |b: BlockView| b.id < id
}

pub open spec fn block_above(id: u128) -> spec_fn(BlockView) -> bool {
    |b: BlockView| b.id > id
}

pub open spec fn block_other(id: u128) -> spec_fn(BlockView) -> bool {
    |b: BlockView| b.id != id
}

pub open spec fn doc_below(id: u128) -> spec_fn(DocumentView) -> bool {
    |d: DocumentView| d.id < id
}

pub open spec fn doc_above(id: u128) -> spec_fn(DocumentView) -> bool {
    |d: DocumentView| d.id > id
}

pub open spec fn doc_other(id: u128) -> spec_fn(DocumentView) -> bool {
    |d: DocumentView| d.id != id
}

pub open spec fn edge_other(id: u128) -> spec_fn(Edge) -> bool {
    |e: Edge| e.id != id
}

pub open spec fn name_other(k: Seq<char>) -> spec_fn((Seq<char>, u128)) -> bool {
    |p: (Seq<char>, u128)| p.0 != k
}

/// The heap with `b` stored under its id: it replaces a block with that id, or is
/// inserted where the id order puts it.
pub open spec fn put_block(bs: Seq<BlockView>, b: BlockView) -> Seq<BlockView> {
    keep(bs, block_below(b.id)).push(b) + keep(bs, block_above(b.id))
}

pub open spec fn put_document(ds: Seq<DocumentView>, d: DocumentView) -> Seq<DocumentView> {
    keep(ds, doc_below(d.id)).push(d) + keep(ds, doc_above(d.id))
}

/// The graph with `e` stored: any edge with its id is dropped and `e` goes last.
pub open spec fn put_edge(es: Seq<Edge>, e: Edge) -> Seq<Edge> {
    keep(es, edge_other(e.id)).push(e)
}

/// Position of the first entry with key `k`.
pub open spec fn name_slot(ns: Seq<(Seq<char>, u128)>, k: Seq<char>) -> Option<int> {
    if exists|i: int| is_first_where(ns, key_is::<u128>(k), i) {
        Some(choose|i: int| is_first_where(ns, key_is::<u128>(k), i))
    } else {
        None
    }
}

/// The name index with `k` mapped to `id`: an existing entry keeps its place, a new
/// one goes last.
pub open spec fn set_name(ns: Seq<(Seq<char>, u128)>, k: Seq<char>, id: u128) -> Seq<(Seq<char>, u128)> {
    match name_slot(ns, k) {
        Some(i) => ns.update(i, (k, id)),
        None => ns.push((k, id)),
    }
}

pub open spec fn apply_write(v: VaultView, w: WriteView) -> VaultView {
    match w {
        WriteView::WriteBlock(b) => VaultView { blocks: put_block(v.blocks, b), ..v },
        WriteView::DeleteBlock(id) => VaultView { blocks: keep(v.blocks, block_other(id)), ..v },
        WriteView::WriteEdge(e) => VaultView { edges: put_edge(v.edges, e), ..v },
        WriteView::RemoveEdge(id) => VaultView { edges: keep(v.edges, edge_other(id)), ..v },
        WriteView::WriteDocument(d) => VaultView { documents: put_document(v.documents, d), ..v },
        WriteView::DeleteDocument(id) => VaultView {
            documents: keep(v.documents, doc_other(id)),
            ..v
        },
        WriteView::SetName { name, id } => VaultView { names: set_name(v.names, name, id), ..v },
        WriteView::RemoveName(name) => VaultView { names: keep(v.names, name_other(name)), ..v },
    }
}

/// The vault after the writes, applied in order.
pub open spec fn apply_writes(v: VaultView, ws: Seq<WriteView>) -> VaultView
    decreases ws.len(),
{
    if ws.len() == 0 {
        v
    } else {
        apply_write(apply_writes(v, ws.drop_last()), ws.last())
    }
}

pub proof fn lemma_name_slot(ns: Seq<(Seq<char>, u128)>, k: Seq<char>, i: int)
    requires
        is_first_where(ns, key_is::<u128>(k), i),
    ensures
        name_slot(ns, k) == Some(i),
{
    let f = key_is::<u128>(k);
    let j = choose|j: int| is_first_where(ns, f, j);
    assert(is_first_where(ns, f, j));
    if j < i {
        assert(!f(ns[j]));
    }
    if i < j {
        assert(!f(ns[i]));
    }
}

// ---- executable updates -----------------------------------------------------------------

pub open spec fn block_test(mode: u8, id: u128) -> spec_fn(BlockView) -> bool {
    if mode == 0 {
        block_below(id)
    } else if mode == 1 {
        block_above(id)
    } else {
        block_other(id)
    }
}

pub open spec fn doc_test(mode: u8, id: u128) -> spec_fn(DocumentView) -> bool {
    if mode == 0 {
        doc_below(id)
    } else if mode == 1 {
        doc_above(id)
    } else {
        doc_other(id)
    }
}

/// Append to `out` copies of the blocks of `bs` that pass the test, in order.
fn copy_blocks_where(bs: &Vec<Block>, mode: u8, id: u128, out: &mut Vec<Block>)
    ensures
        blocks_view(final(out)@) == blocks_view(old(out)@) + keep(
            blocks_view(bs@),
            block_test(mode, id),
        ),
{
    let ghost s = blocks_view(bs@);
    let ghost f = block_test(mode, id);
    let ghost start = blocks_view(out@);
    let mut i: usize = 0;
    while i < bs.len()
        invariant
            i <= bs.len(),
            s == blocks_view(bs@),
            f == block_test(mode, id),
            blocks_view(out@) == start + keep(s.subrange(0, i as int), f),
        decreases bs.len() - i,
    {
        let b = &bs[i];
        let hit = if mode == 0 {
            b.id < id
        } else if mode == 1 {
            b.id > id
        } else {
            b.id != id
        };
        assert(hit == f(s[i as int]));
        assert(s.subrange(0, i + 1).drop_last() =~= s.subrange(0, i as int));
        if hit {
            let c = b.clone();
            let ghost before = out@;
            out.push(c);
            assert(blocks_view(out@) =~= blocks_view(before).push(c@));
        }
        assert(blocks_view(out@) =~= start + keep(s.subrange(0, i + 1), f));
        i += 1;
    }
    assert(s.subrange(0, bs.len() as int) =~= s);
}

fn copy_documents_where(ds: &Vec<Document>, mode: u8, id: u128, out: &mut Vec<Document>)
    ensures
        documents_view(final(out)@) == documents_view(old(out)@) + keep(
            documents_view(ds@),
            doc_test(mode, id),
        ),
{
    let ghost s = documents_view(ds@);
    let ghost f = doc_test(mode, id);
    let ghost start = documents_view(out@);
    let mut i: usize = 0;
    while i < ds.len()
        invariant
            i <= ds.len(),
            s == documents_view(ds@),
            f == doc_test(mode, id),
            documents_view(out@) == start + keep(s.subrange(0, i as int), f),
        decreases ds.len() - i,
    {
        let d = &ds[i];
        let hit = if mode == 0 {
            d.id < id
        } else if mode == 1 {
            d.id > id
        } else {
            d.id != id
        };
        assert(hit == f(s[i as int]));
        assert(s.subrange(0, i + 1).drop_last() =~= s.subrange(0, i as int));
        if hit {
            let c = d.clone();
            let ghost before = out@;
            out.push(c);
            assert(documents_view(out@) =~= documents_view(before).push(c@));
        }
        assert(documents_view(out@) =~= start + keep(s.subrange(0, i + 1), f));
        i += 1;
    }
    assert(s.subrange(0, ds.len() as int) =~= s);
}

fn edges_other(es: &Vec<Edge>, id: u128) -> (r: Vec<Edge>)
    ensures
        r@ == keep(es@, edge_other(id)),
{
    let ghost f = edge_other(id);
    let mut out: Vec<Edge> = Vec::new();
    let mut i: usize = 0;
    while i < es.len()
        invariant
            i <= es.len(),
            f == edge_other(id),
            out@ == keep(es@.subrange(0, i as int), f),
        decreases es.len() - i,
    {
        assert(es@.subrange(0, i + 1).drop_last() =~= es@.subrange(0, i as int));
        if es[i].id != id {
            out.push(es[i]);
        }
        i += 1;
    }
    assert(es@.subrange(0, es.len() as int) =~= es@);
    out
}

fn names_other(ns: &Vec<(String, u128)>, k: &String) -> (r: Vec<(String, u128)>)
    ensures
        crate::text::pairs_view(r@) == keep(crate::text::pairs_view(ns@), name_other(k@)),
{
    let ghost s = crate::text::pairs_view(ns@);
    let ghost f = name_other(k@);
    let mut out: Vec<(String, u128)> = Vec::new();
    let mut i: usize = 0;
    while i < ns.len()
        invariant
            i <= ns.len(),
            s == crate::text::pairs_view(ns@),
            f == name_other(k@),
            crate::text::pairs_view(out@) == keep(s.subrange(0, i as int), f),
        decreases ns.len() - i,
    {
        assert(s.subrange(0, i + 1).drop_last() =~= s.subrange(0, i as int));
        assert(s[i as int] == (ns@[i as int].0@, ns@[i as int].1));
        if ns[i].0 != *k {
            let ghost before = out@;
            out.push((ns[i].0.clone(), ns[i].1));
            assert(crate::text::pairs_view(out@) =~= crate::text::pairs_view(before).push(s[i as int]));
        }
        i += 1;
    }
    assert(s.subrange(0, ns.len() as int) =~= s);
    out
}

fn set_name_entry(ns: &mut Vec<(String, u128)>, k: String, id: u128)
    ensures
        crate::text::pairs_view(final(ns)@) == set_name(crate::text::pairs_view(old(ns)@), k@, id),
{
    let ghost s = crate::text::pairs_view(ns@);
    let ghost f = key_is::<u128>(k@);
    let mut i: usize = 0;
    while i < ns.len()
        invariant
            i <= ns.len(),
            s == crate::text::pairs_view(ns@),
            s == crate::text::pairs_view(old(ns)@),
            f == key_is::<u128>(k@),
            forall|j: int| 0 <= j < i ==> !f(s[j]),
        decreases ns.len() - i,
    {
        if ns[i].0 == k {
            proof {
                lemma_name_slot(s, k@, i as int);
            }
            let ghost kv = k@;
            assert(set_name(s, kv, id) == s.update(i as int, (kv, id)));
            ns.set(i, (k, id));
            assert(crate::text::pairs_view(ns@) =~= s.update(i as int, (kv, id)));
            return;
        }
        i += 1;
    }
    assert(name_slot(s, k@) is None) by {
        if exists|j: int| is_first_where(s, f, j) {
            let j = choose|j: int| is_first_where(s, f, j);
            assert(f(s[j]));
        }
    }
    let ghost before = ns@;
    ns.push((k, id));
    assert(crate::text::pairs_view(ns@) =~= s.push((k@, id)));
}

fn clone_documents(ds: &Vec<Document>) -> (r: Vec<Document>)
    ensures
        documents_view(r@) == documents_view(ds@),
{
    let mut out: Vec<Document> = Vec::new();
    let mut i: usize = 0;
    while i < ds.len()
        invariant
            i <= ds.len(),
            documents_view(out@) == documents_view(ds@).subrange(0, i as int),
        decreases ds.len() - i,
    {
        let c = ds[i].clone();
        let ghost before = out@;
        out.push(c);
        assert(documents_view(out@) =~= documents_view(before).push(c@));
        assert(documents_view(out@) =~= documents_view(ds@).subrange(0, i + 1));
        i += 1;
    }
    assert(documents_view(ds@).subrange(0, ds.len() as int) =~= documents_view(ds@));
    out
}

fn clone_names(ns: &Vec<(String, u128)>) -> (r: Vec<(String, u128)>)
    ensures
        crate::text::pairs_view(r@) == crate::text::pairs_view(ns@),
{
    let mut out: Vec<(String, u128)> = Vec::new();
    let mut i: usize = 0;
    while i < ns.len()
        invariant
            i <= ns.len(),
            crate::text::pairs_view(out@) == crate::text::pairs_view(ns@).subrange(0, i as int),
        decreases ns.len() - i,
    {
        let c = ns[i].0.clone();
        let ghost before = out@;
        out.push((c, ns[i].1));
        assert(crate::text::pairs_view(out@) =~= crate::text::pairs_view(before).push((c@, ns@[i as int].1)));
        assert(crate::text::pairs_view(out@) =~= crate::text::pairs_view(ns@).subrange(0, i + 1));
        i += 1;
    }
    assert(crate::text::pairs_view(ns@).subrange(0, ns.len() as int) =~= crate::text::pairs_view(ns@));
    out
}

/// A copy of the vault.
pub fn clone_vault(v: &Vault) -> (r: Vault)
    ensures
        r@ == v@,
        r.version == v.version,
{
    Vault {
        manifest: v.manifest.clone(),
        blocks: v.all_blocks(),
        graph: v.graph.clone(),
        documents: clone_documents(&v.documents),
        names: clone_names(&v.names),
        version: v.version,
    }
}

fn apply_one(v: &mut Vault, w: &VaultWrite)
    ensures
        final(v)@ == apply_write(old(v)@, w@),
        final(v).version == old(v).version,
{
    match w {
        VaultWrite::WriteBlock(b) => {
            let mut bs: Vec<Block> = Vec::new();
            copy_blocks_where(&v.blocks, 0, b.id, &mut bs);
            let c = b.clone();
            let ghost low = bs@;
            bs.push(c);
            assert(blocks_view(bs@) =~= blocks_view(low).push(b@));
            copy_blocks_where(&v.blocks, 1, b.id, &mut bs);
            v.blocks = bs;
        },
        VaultWrite::DeleteBlock(id) => {
            let mut bs: Vec<Block> = Vec::new();
            copy_blocks_where(&v.blocks, 2, *id, &mut bs);
            v.blocks = bs;
        },
        VaultWrite::WriteEdge(e) => {
            let mut es = edges_other(&v.graph.edges, e.id);
            es.push(*e);
            v.graph.edges = es;
        },
        VaultWrite::RemoveEdge(id) => {
            v.graph.edges = edges_other(&v.graph.edges, *id);
        },
        VaultWrite::WriteDocument(d) => {
            let mut ds: Vec<Document> = Vec::new();
            copy_documents_where(&v.documents, 0, d.id, &mut ds);
            let c = d.clone();
            let ghost low = ds@;
            ds.push(c);
            assert(documents_view(ds@) =~= documents_view(low).push(d@));
            copy_documents_where(&v.documents, 1, d.id, &mut ds);
            v.documents = ds;
        },
        VaultWrite::DeleteDocument(id) => {
            let mut ds: Vec<Document> = Vec::new();
            copy_documents_where(&v.documents, 2, *id, &mut ds);
            v.documents = ds;
        },
        VaultWrite::SetName { name, id } => {
            set_name_entry(&mut v.names, name.clone(), *id);
        },
        VaultWrite::RemoveName(name) => {
            v.names = names_other(&v.names, name);
        },
    }
}

/// The vault after applying `writes` to a copy of it, in order (the manifest is
/// unchanged). Used to compute the checksum a commit will produce.
pub fn apply_writes_to_vault(vault: &Vault, writes: &Vec<VaultWrite>) -> (r: Vault)
    ensures
        r@ == apply_writes(vault@, writes_view(writes@)),
        r.version == vault.version,
{
    let ghost ws = writes_view(writes@);
    let mut v = clone_vault(vault);
    let mut i: usize = 0;
    while i < writes.len()
        invariant
            i <= writes.len(),
            ws == writes_view(writes@),
            v@ == apply_writes(vault@, ws.subrange(0, i as int)),
            v.version == vault.version,
        decreases writes.len() - i,
    {
        apply_one(&mut v, &writes[i]);
        assert(ws.subrange(0, i + 1).drop_last() =~= ws.subrange(0, i as int));
        i += 1;
    }
    assert(ws.subrange(0, writes.len() as int) =~= ws);
    v
}

/// The checksum the vault will have once `writes` are applied.
pub fn expected_checksum_after_writes(vault: &Vault, writes: &Vec<VaultWrite>) -> (r: String)
    ensures
        r@ == checksum_of(apply_writes(vault@, writes_view(writes@))),
{
    let after = apply_writes_to_vault(vault, writes);
    compute(&after)
}

// ---- the before image ---------------------------------------------------------------------

/// The state of one artifact before a commit. `None` (or an absent id) records that
/// the artifact did not exist.
#[derive(Debug)]
#[allow(inconsistent_fields)]
pub enum BeforeImageEntry {
    Block { data: Option<Block> },
    Edge { data: Option<Edge> },
    Document { data: Option<Document> },
    Name { name: String, id: Option<u128> },
}

#[allow(inconsistent_fields)]
pub enum BeforeView {
    Block { data: Option<BlockView> },
    Edge { data: Option<Edge> },
    Document { data: Option<DocumentView> },
    Name { name: Seq<char>, id: Option<u128> },
}

impl View for BeforeImageEntry {
    type V = BeforeView;

    open spec fn view(&self) -> BeforeView {
        match self {
            BeforeImageEntry::Block { data } => BeforeView::Block {
                data: crate::ports::opt_block_view(*data),
            },
            BeforeImageEntry::Edge { data } => BeforeView::Edge { data: *data },
            BeforeImageEntry::Document { data } => BeforeView::Document {
                data: crate::ports::opt_document_view(*data),
            },
            BeforeImageEntry::Name { name, id } => BeforeView::Name { name: name@, id: *id },
        }
    }
}

pub open spec fn before_view(s: Seq<BeforeImageEntry>) -> Seq<BeforeView> {
    s.map_values(|e: BeforeImageEntry| e@)
}

/// The journal of a commit: written before the writes are applied, deleted after the
/// manifest is; used to recover from a crash in between.
#[derive(Debug)]
pub struct Journal {
    pub expected_checksum: String,
    pub before_image: Vec<BeforeImageEntry>,
    pub writes: Vec<VaultWrite>,
}

pub struct JournalView {
    pub expected_checksum: Seq<char>,
    pub before_image: Seq<BeforeView>,
    pub writes: Seq<WriteView>,
}

impl View for Journal {
    type V = JournalView;

    open spec fn view(&self) -> JournalView {
        JournalView {
            expected_checksum: self.expected_checksum@,
            before_image: before_view(self.before_image@),
            writes: writes_view(self.writes@),
        }
    }
}

pub open spec fn document_lookup(ds: Seq<DocumentView>, id: u128) -> Option<DocumentView> {
    first_where(ds, crate::ports::document_has_id(id))
}

/// What the artifact that `w` touches looked like in `v`.
pub open spec fn before_entry(v: VaultView, w: WriteView) -> BeforeView {
    match w {
        WriteView::WriteBlock(b) => BeforeView::Block { data: crate::types::block_lookup(v.blocks, b.id) },
        WriteView::DeleteBlock(id) => BeforeView::Block { data: crate::types::block_lookup(v.blocks, id) },
        WriteView::WriteEdge(e) => BeforeView::Edge { data: first_where(v.edges, edge_has_id(e.id)) },
        WriteView::RemoveEdge(id) => BeforeView::Edge { data: first_where(v.edges, edge_has_id(id)) },
        WriteView::WriteDocument(d) => BeforeView::Document { data: document_lookup(v.documents, d.id) },
        WriteView::DeleteDocument(id) => BeforeView::Document { data: document_lookup(v.documents, id) },
        WriteView::SetName { name, id: _ } => BeforeView::Name {
            name,
            id: crate::text::assoc_first(v.names, name),
        },
        WriteView::RemoveName(name) => BeforeView::Name {
            name,
            id: crate::text::assoc_first(v.names, name),
        },
    }
}

pub open spec fn before_image(v: VaultView, ws: Seq<WriteView>) -> Seq<BeforeView> {
    ws.map_values(|w: WriteView| before_entry(v, w))
}

fn before_of(vault: &Vault, w: &VaultWrite) -> (r: BeforeImageEntry)
    ensures
        r@ == before_entry(vault@, w@),
{
    match w {
        VaultWrite::WriteBlock(b) => BeforeImageEntry::Block { data: vault.get_block(b.id) },
        VaultWrite::DeleteBlock(id) => BeforeImageEntry::Block { data: vault.get_block(*id) },
        VaultWrite::WriteEdge(e) => BeforeImageEntry::Edge { data: vault.edge_with_id(e.id) },
        VaultWrite::RemoveEdge(id) => BeforeImageEntry::Edge { data: vault.edge_with_id(*id) },
        VaultWrite::WriteDocument(d) => BeforeImageEntry::Document { data: vault.get_document(d.id) },
        VaultWrite::DeleteDocument(id) => BeforeImageEntry::Document {
            data: vault.get_document(*id),
        },
        VaultWrite::SetName { name, id: _ } => BeforeImageEntry::Name {
            name: name.clone(),
            id: crate::text::assoc_find(&vault.names, name.as_str()),
        },
        VaultWrite::RemoveName(name) => BeforeImageEntry::Name {
            name: name.clone(),
            id: crate::text::assoc_find(&vault.names, name.as_str()),
        },
    }
}

/// The state, in `vault`, of each artifact that one of `writes` touches, in order.
pub fn build_before_image(vault: &Vault, writes: &Vec<VaultWrite>) -> (r: Vec<BeforeImageEntry>)
    ensures
        before_view(r@) == before_image(vault@, writes_view(writes@)),
{
    let ghost ws = writes_view(writes@);
    let mut out: Vec<BeforeImageEntry> = Vec::new();
    let mut i: usize = 0;
    while i < writes.len()
        invariant
            i <= writes.len(),
            ws == writes_view(writes@),
            before_view(out@) == before_image(vault@, ws.subrange(0, i as int)),
        decreases writes.len() - i,
    {
        let e = before_of(vault, &writes[i]);
        assert(ws[i as int] == writes@[i as int]@);
        let ghost before = out@;
        out.push(e);
        assert(before_view(out@) =~= before_view(before).push(e@));
        assert(before_view(out@) =~= before_image(vault@, ws.subrange(0, i + 1)));
        i += 1;
    }
    assert(ws.subrange(0, writes.len() as int) =~= ws);
    out
}

/// The journal of committing `writes` to `vault`.
pub open spec fn journal_of(v: VaultView, ws: Seq<WriteView>) -> JournalView {
    JournalView {
        expected_checksum: checksum_of(apply_writes(v, ws)),
        before_image: before_image(v, ws),
        writes: ws,
    }
}

/// Build the journal of a commit: the checksum the writes will produce, the before
/// image, and the writes themselves.
pub fn build_journal(vault: &Vault, writes: &Vec<VaultWrite>) -> (r: Journal)
    ensures
        r@ == journal_of(vault@, writes_view(writes@)),
{
    let expected_checksum = expected_checksum_after_writes(vault, writes);
    let before_image = build_before_image(vault, writes);
    let writes = crate::results::clone_writes(writes);
    Journal { expected_checksum, before_image, writes }
}

// ---- recovery ---------------------------------------------------------------------------

/// What recovery must do, given the journal and the vault as found.
#[derive(Debug, Clone, Copy, PartialEq, Eq, Structural)]
pub enum RecoveryCase {
    /// The writes landed and the manifest did not: rewrite the manifest, delete the journal.
    A,
    /// No write landed: delete the journal.
    B,
    /// Some writes landed: restore the before image, rewrite the manifest, delete the journal.
    C,
}

pub open spec fn recovery_case_of(actual: Seq<char>, expected: Seq<char>, manifest: Seq<char>) -> RecoveryCase {
    if actual == expected {
        RecoveryCase::A
    } else if actual == manifest {
        RecoveryCase::B
    } else {
        RecoveryCase::C
    }
}

/// Decide the recovery case from the vault's actual checksum, the journal and the
/// checksum the manifest records.
pub fn recovery_case(actual_checksum: &str, journal: &Journal, manifest_checksum: &str) -> (r: RecoveryCase)
    ensures
        r == recovery_case_of(actual_checksum@, journal@.expected_checksum, manifest_checksum@),
{
    let actual = actual_checksum.to_owned();
    let manifest = manifest_checksum.to_owned();
    if actual == journal.expected_checksum {
        RecoveryCase::A
    } else if actual == manifest {
        RecoveryCase::B
    } else {
        RecoveryCase::C
    }
}

/// The writes that restore what one write changed, or `None` when the entry and the
/// write concern different kinds of artifact.
pub open spec fn undo_step(e: BeforeView, w: WriteView) -> Option<Seq<WriteView>> {
    match (e, w) {
        (BeforeView::Block { data }, WriteView::WriteBlock(b)) => Some(
            match data {
                Some(d) => seq![WriteView::WriteBlock(d)],
                None => seq![WriteView::DeleteBlock(b.id)],
            },
        ),
        (BeforeView::Block { data }, WriteView::DeleteBlock(_)) => Some(
            match data {
                Some(d) => seq![WriteView::WriteBlock(d)],
                None => Seq::empty(),
            },
        ),
        (BeforeView::Edge { data }, WriteView::WriteEdge(x)) => Some(
            match data {
                Some(d) => seq![WriteView::WriteEdge(d)],
                None => seq![WriteView::RemoveEdge(x.id)],
            },
        ),
        (BeforeView::Edge { data }, WriteView::RemoveEdge(_)) => Some(
            match data {
                Some(d) => seq![WriteView::WriteEdge(d)],
                None => Seq::empty(),
            },
        ),
        (BeforeView::Document { data }, WriteView::WriteDocument(x)) => Some(
            match data {
                Some(d) => seq![WriteView::WriteDocument(d)],
                None => seq![WriteView::DeleteDocument(x.id)],
            },
        ),
        (BeforeView::Document { data }, WriteView::DeleteDocument(_)) => Some(
            match data {
                Some(d) => seq![WriteView::WriteDocument(d)],
                None => Seq::empty(),
            },
        ),
        (BeforeView::Name { name, id }, WriteView::SetName { .. }) => Some(
            match id {
                Some(x) => seq![WriteView::SetName { name, id: x }],
                None => seq![WriteView::RemoveName(name)],
            },
        ),
        (BeforeView::Name { name, id }, WriteView::RemoveName(_)) => Some(
            match id {
                Some(x) => seq![WriteView::SetName { name, id: x }],
                None => Seq::empty(),
            },
        ),
        _ => None,
    }
}

/// The undo writes of the first `n` (entry, write) pairs, and how many of those pairs
/// did not match.
pub open spec fn undo_prefix(bi: Seq<BeforeView>, ws: Seq<WriteView>, n: int) -> (Seq<WriteView>, nat)
    decreases n,
{
    if n <= 0 {
        (Seq::empty(), 0)
    } else {
        let (u, k) = undo_prefix(bi, ws, n - 1);
        match undo_step(bi[n - 1], ws[n - 1]) {
            Some(x) => (u + x, k),
            None => (u, k + 1),
        }
    }
}

pub open spec fn min_len(a: nat, b: nat) -> nat {
    if a <= b {
        a
    } else {
        b
    }
}

/// The writes that restore the before image, in order, and the number of writes that
/// could not be undone: pairs whose entry and write disagree in kind, and writes that
/// have no before-image entry.
pub open spec fn undo_of(j: JournalView) -> (Seq<WriteView>, nat) {
    let n = min_len(j.before_image.len(), j.writes.len());
    let (u, k) = undo_prefix(j.before_image, j.writes, n as int);
    (u, k + (j.writes.len() - n) as nat)
}

/// The undo writes of a journal, and how many writes had no matching before image.
pub struct UndoResult {
    pub writes: Vec<VaultWrite>,
    pub skipped: usize,
}

fn undo_one(e: &BeforeImageEntry, w: &VaultWrite, out: &mut Vec<VaultWrite>) -> (matched: bool)
    ensures
        match undo_step(e@, w@) {
            Some(x) => matched && writes_view(final(out)@) == writes_view(old(out)@) + x,
            None => !matched && writes_view(final(out)@) == writes_view(old(out)@),
        },
{
    let ghost start = writes_view(out@);
    let undo: Option<VaultWrite> = match (e, w) {
        (BeforeImageEntry::Block { data }, VaultWrite::WriteBlock(b)) => match data {
            Some(d) => Some(VaultWrite::WriteBlock(d.clone())),
            None => Some(VaultWrite::DeleteBlock(b.id)),
        },
        (BeforeImageEntry::Block { data }, VaultWrite::DeleteBlock(_)) => match data {
            Some(d) => Some(VaultWrite::WriteBlock(d.clone())),
            None => None,
        },
        (BeforeImageEntry::Edge { data }, VaultWrite::WriteEdge(x)) => match data {
            Some(d) => Some(VaultWrite::WriteEdge(*d)),
            None => Some(VaultWrite::RemoveEdge(x.id)),
        },
        (BeforeImageEntry::Edge { data }, VaultWrite::RemoveEdge(_)) => match data {
            Some(d) => Some(VaultWrite::WriteEdge(*d)),
            None => None,
        },
        (BeforeImageEntry::Document { data }, VaultWrite::WriteDocument(x)) => match data {
            Some(d) => Some(VaultWrite::WriteDocument(d.clone())),
            None => Some(VaultWrite::DeleteDocument(x.id)),
        },
        (BeforeImageEntry::Document { data }, VaultWrite::DeleteDocument(_)) => match data {
            Some(d) => Some(VaultWrite::WriteDocument(d.clone())),
            None => None,
        },
        (BeforeImageEntry::Name { name, id }, VaultWrite::SetName { .. }) => match id {
            Some(x) => Some(VaultWrite::SetName { name: name.clone(), id: *x }),
            None => Some(VaultWrite::RemoveName(name.clone())),
        },
        (BeforeImageEntry::Name { name, id }, VaultWrite::RemoveName(_)) => match id {
            Some(x) => Some(VaultWrite::SetName { name: name.clone(), id: *x }),
            None => None,
        },
        _ => {
            return false;
        },
    };
    match undo {
        Some(u) => {
            let ghost before = out@;
            out.push(u);
            assert(writes_view(out@) =~= writes_view(before).push(u@));
        },
        None => {},
    }
    assert(undo_step(e@, w@) is Some);
    assert(writes_view(out@) =~= start + undo_step(e@, w@)->0);
    true
}

/// The writes that restore the state recorded in the journal's before image (recovery
/// case C), and how many writes could not be undone.
pub fn undo_writes_from_journal(journal: &Journal) -> (r: UndoResult)
    ensures
        (writes_view(r.writes@), r.skipped as nat) == undo_of(journal@),
{
    let ghost bi = journal@.before_image;
    let ghost ws = journal@.writes;
    let n = if journal.before_image.len() <= journal.writes.len() {
        journal.before_image.len()
    } else {
        journal.writes.len()
    };
    let mut out: Vec<VaultWrite> = Vec::new();
    let mut skipped: usize = 0;
    let mut i: usize = 0;
    while i < n
        invariant
            i <= n,
            n <= journal.before_image.len(),
            n <= journal.writes.len(),
            bi == journal@.before_image,
            ws == journal@.writes,
            (writes_view(out@), skipped as nat) == undo_prefix(bi, ws, i as int),
            skipped <= i,
        decreases n - i,
    {
        assert(bi[i as int] == journal.before_image@[i as int]@);
        assert(ws[i as int] == journal.writes@[i as int]@);
        let matched = undo_one(&journal.before_image[i], &journal.writes[i], &mut out);
        if !matched {
            skipped += 1;
        }
        i += 1;
    }
    let extra = journal.writes.len() - n;
    UndoResult { writes: out, skipped: skipped + extra }
}

/// Why recovery cannot proceed.
#[derive(Debug)]
pub enum RecoveryError {
    /// The journal's before image and writes disagree: this many writes cannot be undone.
    CorruptJournal(usize),
    /// Undoing the journal did not bring the vault back to the manifest's checksum. The
    /// undo writes are still to be applied, in order, before the failure is reported.
    NotRestored { undo: Vec<VaultWrite>, actual: String, expected: String },
}

pub enum RecoveryErrorView {
    CorruptJournal(usize),
    NotRestored { undo: Seq<WriteView>, actual: Seq<char>, expected: Seq<char> },
}

impl View for RecoveryError {
    type V = RecoveryErrorView;

    open spec fn view(&self) -> RecoveryErrorView {
        match self {
            RecoveryError::CorruptJournal(n) => RecoveryErrorView::CorruptJournal(*n),
            RecoveryError::NotRestored { undo, actual, expected } => RecoveryErrorView::NotRestored {
                undo: writes_view(undo@),
                actual: actual@,
                expected: expected@,
            },
        }
    }
}

/// What an adapter must do to recover: apply `undo` in order, write `manifest` when
/// there is one, then delete the journal.
pub struct RecoveryPlan {
    pub case: RecoveryCase,
    pub undo: Vec<VaultWrite>,
    pub manifest: Option<Manifest>,
}

pub struct PlanView {
    pub case: RecoveryCase,
    pub undo: Seq<WriteView>,
    pub manifest: Option<crate::types::ManifestView>,
}

impl View for RecoveryPlan {
    type V = PlanView;

    open spec fn view(&self) -> PlanView {
        PlanView {
            case: self.case,
            undo: writes_view(self.undo@),
            manifest: match self.manifest {
                Some(m) => Some(m@),
                None => None,
            },
        }
    }
}

/// The recovery of vault `v` (as found on disk) from journal `j`.
pub open spec fn recovery_of(v: VaultView, j: JournalView) -> Result<PlanView, RecoveryErrorView> {
    let mc = v.manifest.checksum;
    match recovery_case_of(checksum_of(v), j.expected_checksum, mc) {
        RecoveryCase::A => Ok(
            PlanView {
                case: RecoveryCase::A,
                undo: Seq::empty(),
                manifest: Some(
                    crate::types::ManifestView {
                        checksum: j.expected_checksum,
                        previous_checksum: Some(mc),
                        ..v.manifest
                    },
                ),
            },
        ),
        RecoveryCase::B => Ok(PlanView { case: RecoveryCase::B, undo: Seq::empty(), manifest: None }),
        RecoveryCase::C => {
            let (u, k) = undo_of(j);
            if k > 0 {
                Err(RecoveryErrorView::CorruptJournal(k as usize))
            } else {
                let after = apply_writes(v, u);
                if checksum_of(after) != mc {
                    Err(
                        RecoveryErrorView::NotRestored {
                            undo: u,
                            actual: checksum_of(after),
                            expected: mc,
                        },
                    )
                } else {
                    Ok(
                        PlanView {
                            case: RecoveryCase::C,
                            undo: u,
                            manifest: Some(crate::commit::committed(after)),
                        },
                    )
                }
            }
        },
    }
}

pub open spec fn plan_result(r: Result<RecoveryPlan, RecoveryError>) -> Result<PlanView, RecoveryErrorView> {
    match r {
        Ok(p) => Ok(p@),
        Err(e) => Err(e@),
    }
}

/// Decide how to recover `vault`, as found after a crash, from its journal: case A
/// rewrites the manifest to the journal's checksum; case B only drops the journal;
/// case C undoes the journal's writes, checks that the vault is back at the manifest's
/// checksum, and re-commits that state. When the undo does not restore the checksum,
/// the error carries the undo writes, which are applied before it is reported.
pub fn plan_recovery(vault: &Vault, journal: &Journal) -> (r: Result<RecoveryPlan, RecoveryError>)
    ensures
        plan_result(r) == recovery_of(vault@, journal@),
{
    let actual = compute(vault);
    let manifest_checksum = vault.manifest.checksum.clone();
    match recovery_case(actual.as_str(), journal, manifest_checksum.as_str()) {
        RecoveryCase::A => {
            let mut m = vault.manifest.clone();
            m.previous_checksum = Some(manifest_checksum);
            m.checksum = journal.expected_checksum.clone();
            let r = RecoveryPlan { case: RecoveryCase::A, undo: Vec::new(), manifest: Some(m) };
            assert(r@.undo =~= Seq::<WriteView>::empty());
            Ok(r)
        },
        RecoveryCase::B => {
            let r = RecoveryPlan { case: RecoveryCase::B, undo: Vec::new(), manifest: None };
            assert(r@.undo =~= Seq::<WriteView>::empty());
            Ok(r)
        },
        RecoveryCase::C => {
            let undo = undo_writes_from_journal(journal);
            if undo.skipped > 0 {
                return Err(RecoveryError::CorruptJournal(undo.skipped));
            }
            let after = apply_writes_to_vault(vault, &undo.writes);
            let actual_after = compute(&after);
            if actual_after != manifest_checksum {
                return Err(
                    RecoveryError::NotRestored {
                        undo: undo.writes,
                        actual: actual_after,
                        expected: manifest_checksum,
                    },
                );
            }
            let m = crate::commit::committed_manifest(&after);
            Ok(RecoveryPlan { case: RecoveryCase::C, undo: undo.writes, manifest: Some(m) })
        },
    }
}

// ---- the vault seen artifact by artifact -------------------------------------------------------

/// An artifact of the vault, by its key.
pub enum Artifact {
    Block(u128),
    Edge(u128),
    Document(u128),
    Name(Seq<char>),
}

/// What the vault holds for an artifact (`None`: nothing).
pub enum Holding {
    Block(Option<BlockView>),
    Edge(Option<Edge>),
    Document(Option<DocumentView>),
    Name(Option<u128>),
}

pub open spec fn block_has_id(id: u128) -> spec_fn(BlockView) -> bool {
    |b: BlockView| b.id == id
}

/// What vault `v` holds for artifact `a` (the first entry, should there be several).
pub open spec fn look(v: VaultView, a: Artifact) -> Holding {
    match a {
        Artifact::Block(id) => Holding::Block(first_where(v.blocks, block_has_id(id))),
        Artifact::Edge(id) => Holding::Edge(first_where(v.edges, edge_has_id(id))),
        Artifact::Document(id) => Holding::Document(document_lookup(v.documents, id)),
        Artifact::Name(k) => Holding::Name(crate::text::assoc_first(v.names, k)),
    }
}

/// The artifact a write touches.
pub open spec fn target(w: WriteView) -> Artifact {
    match w {
        WriteView::WriteBlock(b) => Artifact::Block(b.id),
        WriteView::DeleteBlock(id) => Artifact::Block(id),
        WriteView::WriteEdge(e) => Artifact::Edge(e.id),
        WriteView::RemoveEdge(id) => Artifact::Edge(id),
        WriteView::WriteDocument(d) => Artifact::Document(d.id),
        WriteView::DeleteDocument(id) => Artifact::Document(id),
        WriteView::SetName { name, id: _ } => Artifact::Name(name),
        WriteView::RemoveName(name) => Artifact::Name(name),
    }
}

/// What the touched artifact holds after the write.
pub open spec fn effect(w: WriteView) -> Holding {
    match w {
        WriteView::WriteBlock(b) => Holding::Block(Some(b)),
        WriteView::DeleteBlock(_) => Holding::Block(None),
        WriteView::WriteEdge(e) => Holding::Edge(Some(e)),
        WriteView::RemoveEdge(_) => Holding::Edge(None),
        WriteView::WriteDocument(d) => Holding::Document(Some(d)),
        WriteView::DeleteDocument(_) => Holding::Document(None),
        WriteView::SetName { name: _, id } => Holding::Name(Some(id)),
        WriteView::RemoveName(_) => Holding::Name(None),
    }
}

/// The heap lookup by id is the first block with that id.
pub proof fn lemma_block_lookup_first(bs: Seq<BlockView>, id: u128)
    ensures
        crate::types::block_lookup(bs, id) == first_where(bs, block_has_id(id)),
{
    let f = block_has_id(id);
    if exists|i: int| crate::types::is_first_block(bs, id, i) {
        let i = choose|i: int| crate::types::is_first_block(bs, id, i);
        assert(is_first_where(bs, f, i));
        lemma_first_where_found(bs, f, i);
        crate::types::lemma_block_lookup_found(bs, id, i);
    } else {
        if first_where(bs, f) is Some {
            let i = choose|i: int| is_first_where(bs, f, i);
            assert(crate::types::is_first_block(bs, id, i));
        }
    }
}

proof fn lemma_put_block_look(bs: Seq<BlockView>, b: BlockView, t: u128)
    ensures
        first_where(put_block(bs, b), block_has_id(t)) == (if t == b.id {
            Some(b)
        } else {
            first_where(bs, block_has_id(t))
        }),
{
    let f = block_has_id(t);
    let lo = keep(bs, block_below(b.id));
    let hi = keep(bs, block_above(b.id));
    lemma_first_where_concat(lo.push(b), hi, f);
    lemma_first_where_push(lo, b, f);
    if t < b.id {
        lemma_first_where_keep(bs, block_below(b.id), f);
        lemma_first_where_keep_none(bs, block_above(b.id), f);
    } else if t == b.id {
        lemma_first_where_keep_none(bs, block_below(b.id), f);
    } else {
        lemma_first_where_keep_none(bs, block_below(b.id), f);
        lemma_first_where_keep(bs, block_above(b.id), f);
    }
}

proof fn lemma_drop_block_look(bs: Seq<BlockView>, id: u128, t: u128)
    ensures
        first_where(keep(bs, block_other(id)), block_has_id(t)) == (if t == id {
            None
        } else {
            first_where(bs, block_has_id(t))
        }),
{
    if t == id {
        lemma_first_where_keep_none(bs, block_other(id), block_has_id(t));
    } else {
        lemma_first_where_keep(bs, block_other(id), block_has_id(t));
    }
}

proof fn lemma_put_document_look(ds: Seq<DocumentView>, d: DocumentView, t: u128)
    ensures
        document_lookup(put_document(ds, d), t) == (if t == d.id {
            Some(d)
        } else {
            document_lookup(ds, t)
        }),
{
    let f = crate::ports::document_has_id(t);
    let lo = keep(ds, doc_below(d.id));
    let hi = keep(ds, doc_above(d.id));
    lemma_first_where_concat(lo.push(d), hi, f);
    lemma_first_where_push(lo, d, f);
    if t < d.id {
        lemma_first_where_keep(ds, doc_below(d.id), f);
        lemma_first_where_keep_none(ds, doc_above(d.id), f);
    } else if t == d.id {
        lemma_first_where_keep_none(ds, doc_below(d.id), f);
    } else {
        lemma_first_where_keep_none(ds, doc_below(d.id), f);
        lemma_first_where_keep(ds, doc_above(d.id), f);
    }
}

proof fn lemma_drop_document_look(ds: Seq<DocumentView>, id: u128, t: u128)
    ensures
        document_lookup(keep(ds, doc_other(id)), t) == (if t == id {
            None
        } else {
            document_lookup(ds, t)
        }),
{
    if t == id {
        lemma_first_where_keep_none(ds, doc_other(id), crate::ports::document_has_id(t));
    } else {
        lemma_first_where_keep(ds, doc_other(id), crate::ports::document_has_id(t));
    }
}

proof fn lemma_put_edge_look(es: Seq<Edge>, e: Edge, t: u128)
    ensures
        first_where(put_edge(es, e), edge_has_id(t)) == (if t == e.id {
            Some(e)
        } else {
            first_where(es, edge_has_id(t))
        }),
{
    let f = edge_has_id(t);
    lemma_first_where_push(keep(es, edge_other(e.id)), e, f);
    if t == e.id {
        lemma_first_where_keep_none(es, edge_other(e.id), f);
    } else {
        lemma_first_where_keep(es, edge_other(e.id), f);
    }
}

proof fn lemma_drop_edge_look(es: Seq<Edge>, id: u128, t: u128)
    ensures
        first_where(keep(es, edge_other(id)), edge_has_id(t)) == (if t == id {
            None
        } else {
            first_where(es, edge_has_id(t))
        }),
{
    if t == id {
        lemma_first_where_keep_none(es, edge_other(id), edge_has_id(t));
    } else {
        lemma_first_where_keep(es, edge_other(id), edge_has_id(t));
    }
}

proof fn lemma_set_name_look(ns: Seq<(Seq<char>, u128)>, k: Seq<char>, id: u128, t: Seq<char>)
    ensures
        crate::text::assoc_first(set_name(ns, k, id), t) == (if t == k {
            Some(id)
        } else {
            crate::text::assoc_first(ns, t)
        }),
{
    let f = key_is::<u128>(t);
    match name_slot(ns, k) {
        Some(i) => {
            let j = choose|j: int| is_first_where(ns, key_is::<u128>(k), j);
            assert(is_first_where(ns, key_is::<u128>(k), j));
            let u = ns.update(i, (k, id));
            if t == k {
                assert(is_first_where(u, f, i));
                lemma_first_where_found(u, f, i);
            } else {
                lemma_first_where_update(ns, i, (k, id), f);
            }
        },
        None => {
            if t == k {
                if first_where(ns, f) is Some {
                    let j = choose|j: int| is_first_where(ns, f, j);
                    assert(is_first_where(ns, key_is::<u128>(k), j));
                }
            }
            lemma_first_where_push(ns, (k, id), f);
        },
    }
}

proof fn lemma_drop_name_look(ns: Seq<(Seq<char>, u128)>, k: Seq<char>, t: Seq<char>)
    ensures
        crate::text::assoc_first(keep(ns, name_other(k)), t) == (if t == k {
            None
        } else {
            crate::text::assoc_first(ns, t)
        }),
{
    if t == k {
        lemma_first_where_keep_none(ns, name_other(k), key_is::<u128>(t));
    } else {
        lemma_first_where_keep(ns, name_other(k), key_is::<u128>(t));
    }
}

/// A write changes what its target holds, and nothing else.
pub proof fn lemma_write_frame(v: VaultView, w: WriteView, a: Artifact)
    ensures
        look(apply_write(v, w), a) == (if a == target(w) {
            effect(w)
        } else {
            look(v, a)
        }),
{
    match (w, a) {
        (WriteView::WriteBlock(b), Artifact::Block(t)) => lemma_put_block_look(v.blocks, b, t),
        (WriteView::DeleteBlock(id), Artifact::Block(t)) => lemma_drop_block_look(v.blocks, id, t),
        (WriteView::WriteEdge(e), Artifact::Edge(t)) => lemma_put_edge_look(v.edges, e, t),
        (WriteView::RemoveEdge(id), Artifact::Edge(t)) => lemma_drop_edge_look(v.edges, id, t),
        (WriteView::WriteDocument(d), Artifact::Document(t)) => lemma_put_document_look(
            v.documents,
            d,
            t,
        ),
        (WriteView::DeleteDocument(id), Artifact::Document(t)) => lemma_drop_document_look(
            v.documents,
            id,
            t,
        ),
        (WriteView::SetName { name, id }, Artifact::Name(t)) => lemma_set_name_look(v.names, name, id, t),
        (WriteView::RemoveName(name), Artifact::Name(t)) => lemma_drop_name_look(v.names, name, t),
        _ => {},
    }
}

/// The effect of the last of `ws` that touches `a`, if one does.
pub open spec fn last_effect(ws: Seq<WriteView>, a: Artifact) -> Option<Holding>
    decreases ws.len(),
{
    if ws.len() == 0 {
        None
    } else if target(ws.last()) == a {
        Some(effect(ws.last()))
    } else {
        last_effect(ws.drop_last(), a)
    }
}

/// The last effect of two lists of writes: the second's, or the first's when the second
/// does not touch the artifact.
pub proof fn lemma_last_effect_concat(x: Seq<WriteView>, y: Seq<WriteView>, a: Artifact)
    ensures
        last_effect(x + y, a) == (if last_effect(y, a) is Some {
            last_effect(y, a)
        } else {
            last_effect(x, a)
        }),
    decreases y.len(),
{
    if y.len() > 0 {
        assert((x + y).drop_last() =~= x + y.drop_last());
        assert((x + y).last() == y.last());
        lemma_last_effect_concat(x, y.drop_last(), a);
    } else {
        assert(x + y =~= x);
    }
}

/// When exactly one write touches an artifact, its effect is the last one.
pub proof fn lemma_last_effect_single(ws: Seq<WriteView>, a: Artifact, j: int)
    requires
        0 <= j < ws.len(),
        target(ws[j]) == a,
        forall|k: int| 0 <= k < ws.len() && k != j ==> target(#[trigger] ws[k]) != a,
    ensures
        last_effect(ws, a) == Some(effect(ws[j])),
    decreases ws.len(),
{
    if j < ws.len() - 1 {
        assert(target(ws[ws.len() - 1]) != a);
        let d = ws.drop_last();
        assert forall|k: int| 0 <= k < d.len() && k != j implies target(#[trigger] d[k]) != a by {
            assert(d[k] == ws[k]);
        }
        assert(d[j] == ws[j]);
        lemma_last_effect_single(d, a, j);
    }
}

/// After a list of writes, an artifact holds what the last write touching it put there,
/// or what it held before when none touched it.
pub proof fn lemma_writes_frame(v: VaultView, ws: Seq<WriteView>, a: Artifact)
    ensures
        look(apply_writes(v, ws), a) == (match last_effect(ws, a) {
            Some(x) => x,
            None => look(v, a),
        }),
    decreases ws.len(),
{
    if ws.len() > 0 {
        lemma_writes_frame(v, ws.drop_last(), a);
        lemma_write_frame(apply_writes(v, ws.drop_last()), ws.last(), a);
    }
}

proof fn lemma_first_where_holds<A>(s: Seq<A>, f: spec_fn(A) -> bool)
    ensures
        first_where(s, f) matches Some(x) ==> f(x),
{
    if first_where(s, f) is Some {
        let i = choose|i: int| is_first_where(s, f, i);
        assert(is_first_where(s, f, i));
    }
}

/// Undoing one write of a journal built from `v`: every undo write touches the write's
/// target and puts back what `v` held there; no undo write at all only when the write
/// was a deletion of something `v` did not hold.
proof fn lemma_undo_step(v: VaultView, w: WriteView)
    ensures
        undo_step(before_entry(v, w), w) matches Some(x) && {
            &&& forall|j: int|
                0 <= j < x.len() ==> target(#[trigger] x[j]) == target(w) && effect(x[j]) == look(
                    v,
                    target(w),
                )
            &&& x.len() == 0 ==> effect(w) == look(v, target(w))
        },
{
    match w {
        WriteView::WriteBlock(b) => {
            lemma_block_lookup_first(v.blocks, b.id);
            lemma_first_where_holds(v.blocks, block_has_id(b.id));
        },
        WriteView::DeleteBlock(id) => {
            lemma_block_lookup_first(v.blocks, id);
            lemma_first_where_holds(v.blocks, block_has_id(id));
        },
        WriteView::WriteEdge(e) => {
            lemma_first_where_holds(v.edges, edge_has_id(e.id));
        },
        WriteView::RemoveEdge(id) => {
            lemma_first_where_holds(v.edges, edge_has_id(id));
        },
        WriteView::WriteDocument(d) => {
            lemma_first_where_holds(v.documents, crate::ports::document_has_id(d.id));
        },
        WriteView::DeleteDocument(id) => {
            lemma_first_where_holds(v.documents, crate::ports::document_has_id(id));
        },
        _ => {},
    }
}

/// No write of `ws` touches `a`.
pub open spec fn untouched(ws: Seq<WriteView>, a: Artifact) -> bool {
    forall|j: int| 0 <= j < ws.len() ==> target(#[trigger] ws[j]) != a
}

proof fn lemma_undo_prefix(v: VaultView, ws: Seq<WriteView>, n: int)
    requires
        0 <= n <= ws.len(),
    ensures
        undo_prefix(before_image(v, ws), ws, n).1 == 0,
        forall|j: int|
            0 <= j < undo_prefix(before_image(v, ws), ws, n).0.len() ==> effect(
                #[trigger] undo_prefix(before_image(v, ws), ws, n).0[j],
            ) == look(v, target(undo_prefix(before_image(v, ws), ws, n).0[j])),
        forall|a: Artifact|
            #[trigger] untouched(undo_prefix(before_image(v, ws), ws, n).0, a) ==> forall|i: int|
                0 <= i < n && target(#[trigger] ws[i]) == a ==> effect(ws[i]) == look(v, a),
    decreases n,
{
    let bi = before_image(v, ws);
    if n > 0 {
        lemma_undo_prefix(v, ws, n - 1);
        lemma_undo_step(v, ws[n - 1]);
        assert(bi[n - 1] == before_entry(v, ws[n - 1]));
        let (u0, k0) = undo_prefix(bi, ws, n - 1);
        let x = undo_step(bi[n - 1], ws[n - 1])->0;
        let u = u0 + x;
        assert(undo_prefix(bi, ws, n).0 == u);
        assert forall|j: int| 0 <= j < u.len() implies effect(#[trigger] u[j]) == look(v, target(u[j])) by {
            if j < u0.len() {
                assert(u[j] == u0[j]);
            } else {
                assert(u[j] == x[j - u0.len()]);
            }
        }
        assert forall|a: Artifact| #[trigger] untouched(u, a) implies forall|i: int|
            0 <= i < n && target(#[trigger] ws[i]) == a ==> effect(ws[i]) == look(v, a) by {
            assert forall|j: int| 0 <= j < u0.len() implies target(#[trigger] u0[j]) != a by {
                assert(u[j] == u0[j]);
            }
            assert(untouched(u0, a));
            if target(ws[n - 1]) == a && x.len() > 0 {
                assert(u[u0.len() as int] == x[0]);
            }
        }
    }
}

pub proof fn lemma_last_effect(ws: Seq<WriteView>, a: Artifact)
    ensures
        last_effect(ws, a) matches Some(y) ==> exists|i: int|
            0 <= i < ws.len() && target(#[trigger] ws[i]) == a && effect(ws[i]) == y,
        last_effect(ws, a) is None ==> untouched(ws, a),
    decreases ws.len(),
{
    if ws.len() > 0 {
        lemma_last_effect(ws.drop_last(), a);
        if target(ws.last()) != a {
            if last_effect(ws.drop_last(), a) is Some {
                let i = choose|i: int|
                    0 <= i < ws.drop_last().len() && target(#[trigger] ws.drop_last()[i]) == a
                        && effect(ws.drop_last()[i]) == last_effect(ws.drop_last(), a)->0;
                assert(ws[i] == ws.drop_last()[i]);
            } else {
                assert forall|i: int| 0 <= i < ws.len() implies target(#[trigger] ws[i]) != a by {
                    if i < ws.len() - 1 {
                        assert(ws[i] == ws.drop_last()[i]);
                    }
                }
            }
        }
    }
}

/// Undoing a journal restores the vault it was built from: whichever prefix of the
/// commit's writes landed before a crash, applying the journal's undo writes afterwards
/// leaves every block, edge, document and name as it was; and the journal never has
/// writes it cannot undo.
pub proof fn law_undo_restores(v: VaultView, ws: Seq<WriteView>, landed: int)
    requires
        0 <= landed <= ws.len(),
    ensures
        undo_of(journal_of(v, ws)).1 == 0,
        forall|a: Artifact|
            #[trigger] look(
                apply_writes(apply_writes(v, ws.subrange(0, landed)), undo_of(journal_of(v, ws)).0),
                a,
            ) == look(v, a),
{
    let j = journal_of(v, ws);
    let n = ws.len() as int;
    assert(min_len(j.before_image.len(), j.writes.len()) == n);
    lemma_undo_prefix(v, ws, n);
    let u = undo_of(j).0;
    assert(u == undo_prefix(before_image(v, ws), ws, n).0);
    let x = apply_writes(v, ws.subrange(0, landed));
    assert forall|a: Artifact| #[trigger] look(apply_writes(x, u), a) == look(v, a) by {
        lemma_writes_frame(x, u, a);
        lemma_writes_frame(v, ws.subrange(0, landed), a);
        lemma_last_effect(u, a);
        lemma_last_effect(ws.subrange(0, landed), a);
        if last_effect(u, a) is None && last_effect(ws.subrange(0, landed), a) is Some {
            assert(untouched(u, a));
            let i = choose|i: int|
                0 <= i < ws.subrange(0, landed).len() && target(#[trigger] ws.subrange(0, landed)[i]) == a
                    && effect(ws.subrange(0, landed)[i]) == last_effect(ws.subrange(0, landed), a)->0;
            assert(ws.subrange(0, landed)[i] == ws[i]);
        }
    }
}

/// The structure writes keep: the vault's own (heap and documents in id order, names
/// distinct) and distinct edge ids.
pub open spec fn sound(v: VaultView) -> bool {
    v.wf() && crate::checksum::edge_ids_unique(v.edges)
}

pub open spec fn block_id_lt() -> spec_fn(BlockView, BlockView) -> bool {
    |a: BlockView, b: BlockView| a.id < b.id
}

pub open spec fn doc_id_lt() -> spec_fn(DocumentView, DocumentView) -> bool {
    |a: DocumentView, b: DocumentView| a.id < b.id
}

pub open spec fn edge_id_ne() -> spec_fn(Edge, Edge) -> bool {
    |a: Edge, b: Edge| a.id != b.id
}

pub open spec fn key_ne() -> spec_fn((Seq<char>, u128), (Seq<char>, u128)) -> bool {
    |a: (Seq<char>, u128), b: (Seq<char>, u128)| a.0 != b.0
}

proof fn lemma_put_block_sorted(bs: Seq<BlockView>, b: BlockView)
    requires
        crate::types::blocks_sorted(bs),
    ensures
        crate::types::blocks_sorted(put_block(bs, b)),
{
    let r = block_id_lt();
    assert(pairwise(bs, r));
    let lo = keep(bs, block_below(b.id));
    let hi = keep(bs, block_above(b.id));
    lemma_keep_pairwise(bs, block_below(b.id), r);
    lemma_keep_pairwise(bs, block_above(b.id), r);
    lemma_keep_members(bs, block_below(b.id));
    lemma_keep_members(bs, block_above(b.id));
    let p = put_block(bs, b);
    assert forall|i: int, j: int| 0 <= i < j < p.len() implies p[i].id < p[j].id by {
        let n = lo.len() as int;
        if j < n {
            assert(p[i] == lo[i] && p[j] == lo[j]);
            assert(r(lo[i], lo[j]));
        } else if j == n {
            assert(p[i] == lo[i] && p[j] == b);
            assert(block_below(b.id)(lo[i]));
        } else if i < n {
            assert(p[i] == lo[i] && p[j] == hi[j - n - 1]);
            assert(block_below(b.id)(lo[i]));
            assert(block_above(b.id)(hi[j - n - 1]));
        } else if i == n {
            assert(p[i] == b && p[j] == hi[j - n - 1]);
            assert(block_above(b.id)(hi[j - n - 1]));
        } else {
            assert(p[i] == hi[i - n - 1] && p[j] == hi[j - n - 1]);
            assert(r(hi[i - n - 1], hi[j - n - 1]));
        }
    }
}

proof fn lemma_put_document_sorted(ds: Seq<DocumentView>, d: DocumentView)
    requires
        crate::types::documents_sorted(ds),
    ensures
        crate::types::documents_sorted(put_document(ds, d)),
{
    let r = doc_id_lt();
    assert(pairwise(ds, r));
    let lo = keep(ds, doc_below(d.id));
    let hi = keep(ds, doc_above(d.id));
    lemma_keep_pairwise(ds, doc_below(d.id), r);
    lemma_keep_pairwise(ds, doc_above(d.id), r);
    lemma_keep_members(ds, doc_below(d.id));
    lemma_keep_members(ds, doc_above(d.id));
    let p = put_document(ds, d);
    assert forall|i: int, j: int| 0 <= i < j < p.len() implies p[i].id < p[j].id by {
        let n = lo.len() as int;
        if j < n {
            assert(p[i] == lo[i] && p[j] == lo[j]);
            assert(r(lo[i], lo[j]));
        } else if j == n {
            assert(p[i] == lo[i] && p[j] == d);
            assert(doc_below(d.id)(lo[i]));
        } else if i < n {
            assert(p[i] == lo[i] && p[j] == hi[j - n - 1]);
            assert(doc_below(d.id)(lo[i]));
            assert(doc_above(d.id)(hi[j - n - 1]));
        } else if i == n {
            assert(p[i] == d && p[j] == hi[j - n - 1]);
            assert(doc_above(d.id)(hi[j - n - 1]));
        } else {
            assert(p[i] == hi[i - n - 1] && p[j] == hi[j - n - 1]);
            assert(r(hi[i - n - 1], hi[j - n - 1]));
        }
    }
}

proof fn lemma_drop_sorted(v: VaultView, id: u128)
    requires
        crate::types::blocks_sorted(v.blocks),
        crate::types::documents_sorted(v.documents),
    ensures
        crate::types::blocks_sorted(keep(v.blocks, block_other(id))),
        crate::types::documents_sorted(keep(v.documents, doc_other(id))),
{
    assert(pairwise(v.blocks, block_id_lt()));
    assert(pairwise(v.documents, doc_id_lt()));
    lemma_keep_pairwise(v.blocks, block_other(id), block_id_lt());
    lemma_keep_pairwise(v.documents, doc_other(id), doc_id_lt());
    let kb = keep(v.blocks, block_other(id));
    let kd = keep(v.documents, doc_other(id));
    assert forall|i: int, j: int| 0 <= i < j < kb.len() implies kb[i].id < kb[j].id by {
        assert(block_id_lt()(kb[i], kb[j]));
    }
    assert forall|i: int, j: int| 0 <= i < j < kd.len() implies kd[i].id < kd[j].id by {
        assert(doc_id_lt()(kd[i], kd[j]));
    }
}

proof fn lemma_edges_unique_keep(es: Seq<Edge>, f: spec_fn(Edge) -> bool)
    requires
        crate::checksum::edge_ids_unique(es),
    ensures
        crate::checksum::edge_ids_unique(keep(es, f)),
{
    assert(pairwise(es, edge_id_ne()));
    lemma_keep_pairwise(es, f, edge_id_ne());
    let k = keep(es, f);
    assert forall|i: int, j: int| 0 <= i < k.len() && 0 <= j < k.len() && i != j implies k[i].id
        != k[j].id by {
        if i < j {
            assert(edge_id_ne()(k[i], k[j]));
        } else {
            assert(edge_id_ne()(k[j], k[i]));
        }
    }
}

proof fn lemma_names_unique_keep(ns: Seq<(Seq<char>, u128)>, f: spec_fn((Seq<char>, u128)) -> bool)
    requires
        keys_unique(ns),
    ensures
        keys_unique(keep(ns, f)),
{
    assert(pairwise(ns, key_ne()));
    lemma_keep_pairwise(ns, f, key_ne());
    let k = keep(ns, f);
    assert forall|i: int, j: int| 0 <= i < k.len() && 0 <= j < k.len() && i != j implies k[i].0
        != k[j].0 by {
        if i < j {
            assert(key_ne()(k[i], k[j]));
        } else {
            assert(key_ne()(k[j], k[i]));
        }
    }
}

/// Every write keeps the vault sound.
pub proof fn lemma_write_keeps_sound(v: VaultView, w: WriteView)
    requires
        sound(v),
    ensures
        sound(apply_write(v, w)),
{
    match w {
        WriteView::WriteBlock(b) => lemma_put_block_sorted(v.blocks, b),
        WriteView::DeleteBlock(id) => lemma_drop_sorted(v, id),
        WriteView::WriteEdge(e) => {
            lemma_edges_unique_keep(v.edges, edge_other(e.id));
            lemma_keep_members(v.edges, edge_other(e.id));
            let k = keep(v.edges, edge_other(e.id));
            let p = k.push(e);
            assert forall|i: int, j: int| 0 <= i < p.len() && 0 <= j < p.len() && i != j implies p[i].id
                != p[j].id by {
                if i < k.len() && j < k.len() {
                    assert(p[i] == k[i] && p[j] == k[j]);
                } else if i < k.len() {
                    assert(edge_other(e.id)(k[i]));
                } else {
                    assert(edge_other(e.id)(k[j]));
                }
            }
        },
        WriteView::RemoveEdge(id) => lemma_edges_unique_keep(v.edges, edge_other(id)),
        WriteView::WriteDocument(d) => lemma_put_document_sorted(v.documents, d),
        WriteView::DeleteDocument(id) => lemma_drop_sorted(v, id),
        WriteView::SetName { name, id } => {
            let ns = v.names;
            match name_slot(ns, name) {
                Some(i) => {
                    let j = choose|j: int| is_first_where(ns, key_is::<u128>(name), j);
                    assert(is_first_where(ns, key_is::<u128>(name), j));
                    let u = ns.update(i, (name, id));
                    assert forall|a: int, b: int| 0 <= a < u.len() && 0 <= b < u.len() && a != b implies u[a].0
                        != u[b].0 by {
                        if a != i && b != i {
                            assert(u[a] == ns[a] && u[b] == ns[b]);
                        } else if a == i {
                            assert(u[b] == ns[b]);
                            assert(ns[i].0 != ns[b].0);
                        } else {
                            assert(u[a] == ns[a]);
                            assert(ns[a].0 != ns[i].0);
                        }
                    }
                },
                None => {
                    let p = ns.push((name, id));
                    assert forall|a: int| 0 <= a < ns.len() implies ns[a].0 != name by {
                        if ns[a].0 == name {
                            crate::text::lemma_first_where_exists(ns, key_is::<u128>(name), a);
                        }
                    }
                    assert forall|a: int, b: int| 0 <= a < p.len() && 0 <= b < p.len() && a != b implies p[a].0
                        != p[b].0 by {
                        if a < ns.len() && b < ns.len() {
                            assert(p[a] == ns[a] && p[b] == ns[b]);
                        }
                    }
                },
            }
        },
        WriteView::RemoveName(name) => lemma_names_unique_keep(v.names, name_other(name)),
    }
}

/// Applying any list of writes keeps a sound vault sound: blocks and documents stay in
/// id order, names and edge ids stay unique.
pub proof fn law_writes_keep_sound(v: VaultView, ws: Seq<WriteView>)
    requires
        sound(v),
    ensures
        sound(apply_writes(v, ws)),
    decreases ws.len(),
{
    if ws.len() > 0 {
        law_writes_keep_sound(v, ws.drop_last());
        lemma_write_keeps_sound(apply_writes(v, ws.drop_last()), ws.last());
    }
}

proof fn lemma_sorted_blocks_same(s: Seq<BlockView>, t: Seq<BlockView>)
    requires
        crate::types::blocks_sorted(s),
        crate::types::blocks_sorted(t),
        forall|id: u128| #[trigger] first_where(s, block_has_id(id)) == first_where(t, block_has_id(id)),
    ensures
        s == t,
    decreases s.len() + t.len(),
{
    if s.len() == 0 && t.len() == 0 {
        assert(s =~= t);
    } else if s.len() == 0 {
        let id = t[0].id;
        assert(is_first_where(t, block_has_id(id), 0));
        lemma_first_where_found(t, block_has_id(id), 0);
        lemma_first_where_absent(s, block_has_id(id));
        assert(first_where(s, block_has_id(id)) == first_where(t, block_has_id(id)));
    } else if t.len() == 0 {
        let id = s[0].id;
        assert(is_first_where(s, block_has_id(id), 0));
        lemma_first_where_found(s, block_has_id(id), 0);
        lemma_first_where_absent(t, block_has_id(id));
        assert(first_where(s, block_has_id(id)) == first_where(t, block_has_id(id)));
    } else {
        let a = s.last();
        let b = t.last();
        assert(is_first_where(s, block_has_id(a.id), s.len() - 1));
        lemma_first_where_found(s, block_has_id(a.id), s.len() - 1);
        assert(is_first_where(t, block_has_id(b.id), t.len() - 1));
        lemma_first_where_found(t, block_has_id(b.id), t.len() - 1);
        assert(first_where(s, block_has_id(a.id)) == first_where(t, block_has_id(a.id)));
        assert(first_where(s, block_has_id(b.id)) == first_where(t, block_has_id(b.id)));
        let i = choose|i: int| is_first_where(t, block_has_id(a.id), i);
        let j = choose|j: int| is_first_where(s, block_has_id(b.id), j);
        assert(t[i].id <= b.id);
        assert(s[j].id <= a.id);
        assert(a == b);
        let sd = s.drop_last();
        let td = t.drop_last();
        assert forall|id: u128| #[trigger] first_where(sd, block_has_id(id)) == first_where(td, block_has_id(id)) by {
            lemma_first_where_push(sd, a, block_has_id(id));
            lemma_first_where_push(td, b, block_has_id(id));
            assert(sd.push(a) =~= s);
            assert(td.push(b) =~= t);
            assert(first_where(s, block_has_id(id)) == first_where(t, block_has_id(id)));
            if id == a.id {
                lemma_first_where_absent(sd, block_has_id(id));
                lemma_first_where_absent(td, block_has_id(id));
            }
        }
        lemma_sorted_blocks_same(sd, td);
        assert(sd.push(a) =~= s);
        assert(td.push(b) =~= t);
    }
}

proof fn lemma_sorted_documents_same(s: Seq<DocumentView>, t: Seq<DocumentView>)
    requires
        crate::types::documents_sorted(s),
        crate::types::documents_sorted(t),
        forall|id: u128| #[trigger] document_lookup(s, id) == document_lookup(t, id),
    ensures
        s == t,
    decreases s.len() + t.len(),
{
    if s.len() == 0 && t.len() == 0 {
        assert(s =~= t);
    } else if s.len() == 0 {
        let id = t[0].id;
        assert(is_first_where(t, crate::ports::document_has_id(id), 0));
        lemma_first_where_found(t, crate::ports::document_has_id(id), 0);
        lemma_first_where_absent(s, crate::ports::document_has_id(id));
        assert(document_lookup(s, id) == document_lookup(t, id));
    } else if t.len() == 0 {
        let id = s[0].id;
        assert(is_first_where(s, crate::ports::document_has_id(id), 0));
        lemma_first_where_found(s, crate::ports::document_has_id(id), 0);
        lemma_first_where_absent(t, crate::ports::document_has_id(id));
        assert(document_lookup(s, id) == document_lookup(t, id));
    } else {
        let a = s.last();
        let b = t.last();
        assert(is_first_where(s, crate::ports::document_has_id(a.id), s.len() - 1));
        lemma_first_where_found(s, crate::ports::document_has_id(a.id), s.len() - 1);
        assert(is_first_where(t, crate::ports::document_has_id(b.id), t.len() - 1));
        lemma_first_where_found(t, crate::ports::document_has_id(b.id), t.len() - 1);
        assert(document_lookup(s, a.id) == document_lookup(t, a.id));
        assert(document_lookup(s, b.id) == document_lookup(t, b.id));
        let i = choose|i: int| is_first_where(t, crate::ports::document_has_id(a.id), i);
        let j = choose|j: int| is_first_where(s, crate::ports::document_has_id(b.id), j);
        assert(t[i].id <= b.id);
        assert(s[j].id <= a.id);
        assert(a == b);
        let sd = s.drop_last();
        let td = t.drop_last();
        assert forall|id: u128| #[trigger] document_lookup(sd, id) == document_lookup(td, id) by {
            lemma_first_where_push(sd, a, crate::ports::document_has_id(id));
            lemma_first_where_push(td, b, crate::ports::document_has_id(id));
            assert(sd.push(a) =~= s);
            assert(td.push(b) =~= t);
            assert(document_lookup(s, id) == document_lookup(t, id));
            if id == a.id {
                lemma_first_where_absent(sd, crate::ports::document_has_id(id));
                lemma_first_where_absent(td, crate::ports::document_has_id(id));
            }
        }
        lemma_sorted_documents_same(sd, td);
        assert(sd.push(a) =~= s);
        assert(td.push(b) =~= t);
    }
}

proof fn lemma_unique_edge_member(x: Seq<Edge>, e: Edge)
    requires
        crate::checksum::edge_ids_unique(x),
    ensures
        x.contains(e) <==> first_where(x, edge_has_id(e.id)) == Some(e),
{
    let f = edge_has_id(e.id);
    if x.contains(e) {
        let i = choose|i: int| 0 <= i < x.len() && x[i] == e;
        assert forall|k: int| 0 <= k < i implies !f(x[k]) by {
            assert(x[k].id != x[i].id);
        }
        assert(is_first_where(x, f, i));
        lemma_first_where_found(x, f, i);
    }
    if first_where(x, f) == Some(e) {
        let i = choose|i: int| is_first_where(x, f, i);
        assert(x[i] == e);
    }
}

proof fn lemma_edges_same_multiset(x: Seq<Edge>, y: Seq<Edge>)
    requires
        crate::checksum::edge_ids_unique(x),
        crate::checksum::edge_ids_unique(y),
        forall|id: u128| #[trigger] first_where(x, edge_has_id(id)) == first_where(y, edge_has_id(id)),
    ensures
        x.to_multiset() =~= y.to_multiset(),
{
    broadcast use vstd::seq_lib::to_multiset_contains;

    assert(x.no_duplicates()) by {
        assert forall|i: int, j: int| 0 <= i < x.len() && 0 <= j < x.len() && i != j implies x[i] != x[j] by {
            assert(x[i].id != x[j].id);
        }
    }
    assert(y.no_duplicates()) by {
        assert forall|i: int, j: int| 0 <= i < y.len() && 0 <= j < y.len() && i != j implies y[i] != y[j] by {
            assert(y[i].id != y[j].id);
        }
    }
    x.lemma_multiset_has_no_duplicates();
    y.lemma_multiset_has_no_duplicates();
    assert forall|e: Edge| x.to_multiset().count(e) == y.to_multiset().count(e) by {
        lemma_unique_edge_member(x, e);
        lemma_unique_edge_member(y, e);
        assert(first_where(x, edge_has_id(e.id)) == first_where(y, edge_has_id(e.id)));
        if x.contains(e) {
            assert(x.to_multiset().contains(e));
            assert(y.to_multiset().contains(e));
        }
    }
}

/// Undoing a journal brings a sound vault back to its checksum, whichever prefix of the
/// commit's writes landed.
pub proof fn law_undo_restores_checksum(v: VaultView, ws: Seq<WriteView>, landed: int)
    requires
        sound(v),
        0 <= landed <= ws.len(),
    ensures
        checksum_of(
            apply_writes(apply_writes(v, ws.subrange(0, landed)), undo_of(journal_of(v, ws)).0),
        ) == checksum_of(v),
{
    law_undo_restores(v, ws, landed);
    let x = apply_writes(v, ws.subrange(0, landed));
    let u = undo_of(journal_of(v, ws)).0;
    let f = apply_writes(x, u);
    law_writes_keep_sound(v, ws.subrange(0, landed));
    law_writes_keep_sound(x, u);
    assert forall|id: u128| #[trigger] first_where(f.blocks, block_has_id(id)) == first_where(
        v.blocks,
        block_has_id(id),
    ) by {
        assert(look(f, Artifact::Block(id)) == look(v, Artifact::Block(id)));
    }
    assert forall|id: u128| #[trigger] document_lookup(f.documents, id) == document_lookup(v.documents, id) by {
        assert(look(f, Artifact::Document(id)) == look(v, Artifact::Document(id)));
    }
    assert forall|id: u128| #[trigger] first_where(f.edges, edge_has_id(id)) == first_where(
        v.edges,
        edge_has_id(id),
    ) by {
        assert(look(f, Artifact::Edge(id)) == look(v, Artifact::Edge(id)));
    }
    lemma_sorted_blocks_same(f.blocks, v.blocks);
    lemma_sorted_documents_same(f.documents, v.documents);
    lemma_edges_same_multiset(f.edges, v.edges);
    crate::checksum::lemma_sort_edges_same(f.edges, v.edges);
    assert(crate::checksum::canonical_text(f) == crate::checksum::canonical_text(v));
}

/// Recovery after a crash in the middle of a commit always succeeds and leaves the vault
/// consistent: whichever prefix of the writes landed, applying the plan's undo writes
/// brings the vault to the checksum that the manifest records once the plan's manifest
/// (if any) is written. This holds for a sound vault that matched its manifest before
/// the commit, with the journal that commit wrote.
pub proof fn law_recovery_consistent(v: VaultView, ws: Seq<WriteView>, landed: int)
    requires
        sound(v),
        checksum_of(v) == v.manifest.checksum,
        0 <= landed <= ws.len(),
    ensures
        recovery_of(apply_writes(v, ws.subrange(0, landed)), journal_of(v, ws)) matches Ok(p) && checksum_of(
            apply_writes(apply_writes(v, ws.subrange(0, landed)), p.undo),
        ) == (match p.manifest {
            Some(m) => m.checksum,
            None => v.manifest.checksum,
        }),
{
    let c = apply_writes(v, ws.subrange(0, landed));
    lemma_writes_keep_manifest(v, ws.subrange(0, landed));
    law_undo_restores(v, ws, landed);
    law_undo_restores_checksum(v, ws, landed);
    assert(apply_writes(c, Seq::<WriteView>::empty()) == c);
}

/// Writes leave the manifest alone.
pub proof fn lemma_writes_keep_manifest(v: VaultView, ws: Seq<WriteView>)
    ensures
        apply_writes(v, ws).manifest == v.manifest,
    decreases ws.len(),
{
    if ws.len() > 0 {
        lemma_writes_keep_manifest(v, ws.drop_last());
    }
}

/// Two vaults that hold the same thing for every artifact, are sound, and agree on the
/// manifest and graph version, are the same vault but for the order of edges and names.
proof fn lemma_same_holdings(x: VaultView, y: VaultView)
    requires
        sound(x),
        sound(y),
        forall|a: Artifact| #[trigger] look(x, a) == look(y, a),
    ensures
        x.blocks == y.blocks,
        x.documents == y.documents,
        x.edges.to_multiset() =~= y.edges.to_multiset(),
        forall|k: Seq<char>| #[trigger] crate::text::assoc_first(x.names, k) == crate::text::assoc_first(y.names, k),
{
    assert forall|id: u128| #[trigger] first_where(x.blocks, block_has_id(id)) == first_where(
        y.blocks,
        block_has_id(id),
    ) by {
        assert(look(x, Artifact::Block(id)) == look(y, Artifact::Block(id)));
    }
    assert forall|id: u128| #[trigger] document_lookup(x.documents, id) == document_lookup(y.documents, id) by {
        assert(look(x, Artifact::Document(id)) == look(y, Artifact::Document(id)));
    }
    assert forall|id: u128| #[trigger] first_where(x.edges, edge_has_id(id)) == first_where(
        y.edges,
        edge_has_id(id),
    ) by {
        assert(look(x, Artifact::Edge(id)) == look(y, Artifact::Edge(id)));
    }
    assert forall|k: Seq<char>| #[trigger] crate::text::assoc_first(x.names, k) == crate::text::assoc_first(y.names, k) by {
        assert(look(x, Artifact::Name(k)) == look(y, Artifact::Name(k)));
    }
    lemma_sorted_blocks_same(x.blocks, y.blocks);
    lemma_sorted_documents_same(x.documents, y.documents);
    lemma_edges_same_multiset(x.edges, y.edges);
}

/// Writing two blocks with different ids gives the same vault in either order: the heap
/// does not depend on the order blocks were stored in.
pub proof fn law_block_writes_commute(v: VaultView, a: BlockView, b: BlockView)
    requires
        sound(v),
        a.id != b.id,
    ensures
        apply_writes(v, seq![WriteView::WriteBlock(a), WriteView::WriteBlock(b)]) == apply_writes(
            v,
            seq![WriteView::WriteBlock(b), WriteView::WriteBlock(a)],
        ),
{
    let s1 = seq![WriteView::WriteBlock(a), WriteView::WriteBlock(b)];
    let s2 = seq![WriteView::WriteBlock(b), WriteView::WriteBlock(a)];
    let x = apply_writes(v, s1);
    let y = apply_writes(v, s2);
    assert(s1.drop_last() =~= seq![WriteView::WriteBlock(a)]);
    assert(s2.drop_last() =~= seq![WriteView::WriteBlock(b)]);
    assert(seq![WriteView::WriteBlock(a)].drop_last() =~= Seq::<WriteView>::empty());
    assert(seq![WriteView::WriteBlock(b)].drop_last() =~= Seq::<WriteView>::empty());
    assert(apply_writes(v, Seq::<WriteView>::empty()) == v);
    assert(apply_writes(v, seq![WriteView::WriteBlock(a)]) == apply_write(v, WriteView::WriteBlock(a)));
    assert(apply_writes(v, seq![WriteView::WriteBlock(b)]) == apply_write(v, WriteView::WriteBlock(b)));
    assert(s1.last() == WriteView::WriteBlock(b));
    assert(s2.last() == WriteView::WriteBlock(a));
    assert(x == apply_write(apply_write(v, WriteView::WriteBlock(a)), WriteView::WriteBlock(b)));
    assert(y == apply_write(apply_write(v, WriteView::WriteBlock(b)), WriteView::WriteBlock(a)));
    law_writes_keep_sound(v, s1);
    law_writes_keep_sound(v, s2);
    assert forall|t: Artifact| #[trigger] look(x, t) == look(y, t) by {
        lemma_write_frame(v, WriteView::WriteBlock(a), t);
        lemma_write_frame(v, WriteView::WriteBlock(b), t);
        lemma_write_frame(apply_write(v, WriteView::WriteBlock(a)), WriteView::WriteBlock(b), t);
        lemma_write_frame(apply_write(v, WriteView::WriteBlock(b)), WriteView::WriteBlock(a), t);
    }
    lemma_same_holdings(x, y);
}

/// Applying two lists of writes one after the other is applying their concatenation.
pub proof fn lemma_apply_writes_concat(v: VaultView, s1: Seq<WriteView>, s2: Seq<WriteView>)
    ensures
        apply_writes(v, s1 + s2) == apply_writes(apply_writes(v, s1), s2),
    decreases s2.len(),
{
    if s2.len() == 0 {
        assert(s1 + s2 =~= s1);
    } else {
        lemma_apply_writes_concat(v, s1, s2.drop_last());
        assert((s1 + s2).drop_last() =~= s1 + s2.drop_last());
        assert((s1 + s2).last() == s2.last());
    }
}

/// Writes that do not touch an artifact leave what it holds.
pub proof fn lemma_untouched_holding(v: VaultView, ws: Seq<WriteView>, a: Artifact)
    requires
        untouched(ws, a),
    ensures
        look(apply_writes(v, ws), a) == look(v, a),
    decreases ws.len(),
{
    if ws.len() > 0 {
        assert(untouched(ws.drop_last(), a)) by {
            assert forall|j: int| 0 <= j < ws.drop_last().len() implies target(#[trigger] ws.drop_last()[j]) != a by {
                assert(ws.drop_last()[j] == ws[j]);
            }
        }
        lemma_untouched_holding(v, ws.drop_last(), a);
        assert(target(ws[ws.len() - 1]) != a);
        lemma_write_frame(apply_writes(v, ws.drop_last()), ws.last(), a);
    }
}

/// A single write.
pub proof fn lemma_apply_one(v: VaultView, w: WriteView)
    ensures
        apply_writes(v, seq![w]) == apply_write(v, w),
{
    assert(seq![w].drop_last() =~= Seq::<WriteView>::empty());
    assert(seq![w].last() == w);
    assert(apply_writes(v, Seq::<WriteView>::empty()) == v);
}

/// The checksum a journal expects is the one the commit's manifest records once every
/// write is applied.
pub proof fn law_journal_expects_commit(v: VaultView, ws: Seq<WriteView>)
    ensures
        journal_of(v, ws).expected_checksum == crate::commit::committed(apply_writes(v, ws)).checksum,
{
}

} // verus!
