//! Full vault validation against the format's invariants.
//!
//! Checksum integrity is deliberately not checked here: it is a persistence-boundary
//! check, meaningful only when a freshly loaded vault is compared with its stored
//! manifest (see `checksum::is_drifted`).

use vstd::prelude::*;

use crate::blocks::{has_reserved_characters, name_has_reserved_characters};
use crate::content::{
    extract_footer_annotations, extract_inline_refs, find_heading_outside_fence,
    first_heading, footer_annotations, inline_refs,
};
use crate::error::{DetailsView, Violation, ViolationDetails, ViolationView};
use crate::queries::block_ids;
use crate::text::{assoc_find, assoc_first, concat3, keep, lowercase, to_lower};
use crate::types::{
    blocks_view, documents_view, Block, BlockView, DocumentView, Edge, SectionView, Subsection,
    Vault,
};

verus! {

/// The concatenation of `f(x)` over the elements `x` of `s`, in order.
pub open spec fn flat<A, B>(s: Seq<A>, f: spec_fn(A) -> Seq<B>) -> Seq<B>
    decreases s.len(),
{
    if s.len() == 0 {
        Seq::empty()
    } else {
        flat(s.drop_last(), f) + f(s.last())
    }
}

pub proof fn lemma_flat_step<A, B>(s: Seq<A>, f: spec_fn(A) -> Seq<B>, i: int)
    requires
        0 <= i < s.len(),
    ensures
        flat(s.subrange(0, i + 1), f) == flat(s.subrange(0, i), f) + f(s[i]),
{
    assert(s.subrange(0, i + 1).drop_last() =~= s.subrange(0, i));
}

/// Flattening a concatenation concatenates the flattenings.
pub proof fn lemma_flat_concat<A, B>(a: Seq<A>, b: Seq<A>, f: spec_fn(A) -> Seq<B>)
    ensures
        flat(a + b, f) == flat(a, f) + flat(b, f),
    decreases b.len(),
{
    if b.len() == 0 {
        assert(a + b =~= a);
        assert(flat(a, f) + flat(b, f) =~= flat(a, f));
    } else {
        lemma_flat_concat(a, b.drop_last(), f);
        assert((a + b).drop_last() =~= a + b.drop_last());
        assert((a + b).last() == b.last());
        assert(flat(a + b, f) =~= flat(a, f) + flat(b, f));
    }
}

/// The part of element `i` stands between the parts before it and those after it.
pub proof fn lemma_flat_around<A, B>(s: Seq<A>, f: spec_fn(A) -> Seq<B>, i: int)
    requires
        0 <= i < s.len(),
    ensures
        flat(s, f) == flat(s.subrange(0, i), f) + f(s[i]) + flat(s.subrange(i + 1, s.len() as int), f),
{
    lemma_flat_concat(s.subrange(0, i + 1), s.subrange(i + 1, s.len() as int), f);
    assert(s.subrange(0, i + 1) + s.subrange(i + 1, s.len() as int) =~= s);
    lemma_flat_step(s, f, i);
}

/// Within the flattening, part `i` begins after the parts before it.
pub proof fn lemma_flat_index<A, B>(s: Seq<A>, f: spec_fn(A) -> Seq<B>, i: int, t: int)
    requires
        0 <= i < s.len(),
        0 <= t < f(s[i]).len(),
    ensures
        flat(s.subrange(0, i), f).len() + t < flat(s, f).len(),
        flat(s, f)[flat(s.subrange(0, i), f).len() + t] == f(s[i])[t],
{
    lemma_flat_around(s, f, i);
}

/// A later part begins after every earlier part ends.
pub proof fn lemma_flat_offsets<A, B>(s: Seq<A>, f: spec_fn(A) -> Seq<B>, i: int, j: int)
    requires
        0 <= i < j <= s.len(),
    ensures
        flat(s.subrange(0, i), f).len() + f(s[i]).len() <= flat(s.subrange(0, j), f).len(),
{
    lemma_flat_concat(s.subrange(0, i + 1), s.subrange(i + 1, j), f);
    assert(s.subrange(0, i + 1) + s.subrange(i + 1, j) =~= s.subrange(0, j));
    lemma_flat_step(s, f, i);
}

/// A flattened list is empty exactly when every part is.
pub proof fn lemma_flat_empty<A, B>(s: Seq<A>, f: spec_fn(A) -> Seq<B>)
    ensures
        flat(s, f).len() == 0 <==> forall|i: int| 0 <= i < s.len() ==> #[trigger] f(s[i]).len() == 0,
    decreases s.len(),
{
    if s.len() > 0 {
        lemma_flat_empty(s.drop_last(), f);
        assert(s[s.len() - 1] == s.last());
        if forall|i: int| 0 <= i < s.len() ==> #[trigger] f(s[i]).len() == 0 {
            assert forall|i: int| 0 <= i < s.drop_last().len() implies #[trigger] f(
                s.drop_last()[i],
            ).len() == 0 by {
                assert(s.drop_last()[i] == s[i]);
            }
        }
        if flat(s, f).len() == 0 {
            assert forall|i: int| 0 <= i < s.len() implies #[trigger] f(s[i]).len() == 0 by {
                if i < s.len() - 1 {
                    assert(s.drop_last()[i] == s[i]);
                }
            }
        }
    }
}

pub open spec fn violations_view(v: Seq<Violation>) -> Seq<ViolationView> {
    v.map_values(|x: Violation| x@)
}

pub open spec fn one(v: ViolationView) -> Seq<ViolationView> {
    seq![v]
}

pub open spec fn none() -> Seq<ViolationView> {
    Seq::empty()
}

/// Some block of the heap has id `id`.
pub open spec fn has_block(bs: Seq<BlockView>, id: u128) -> bool {
    exists|i: int| 0 <= i < bs.len() && bs[i].id == id
}

fn push_violation(out: &mut Vec<Violation>, v: Violation)
    ensures
        violations_view(final(out)@) == violations_view(old(out)@).push(v@),
{
    let ghost before = out@;
    out.push(v);
    assert(violations_view(out@) =~= violations_view(before).push(v@));
}

fn contains_block(blocks: &Vec<Block>, id: u128) -> (r: bool)
    ensures
        r == has_block(blocks_view(blocks@), id),
{
    let ghost bs = blocks_view(blocks@);
    let mut i: usize = 0;
    while i < blocks.len()
        invariant
            i <= blocks.len(),
            bs == blocks_view(blocks@),
            forall|j: int| 0 <= j < i ==> bs[j].id != id,
        decreases blocks.len() - i,
    {
        if blocks[i].id == id {
            assert(bs[i as int].id == id);
            return true;
        }
        i += 1;
    }
    false
}

// ---- every block has a name ----------------------------------------------------------

pub open spec fn metadata_violation(b: BlockView) -> Seq<ViolationView> {
    if b.name.len() == 0 {
        one(
            ViolationView {
                description: "Block metadata missing required 'name' field"@,
                details: DetailsView::MissingMetadataField { block_id: b.id, missing_field: "name"@ },
            },
        )
    } else {
        none()
    }
}

pub open spec fn metadata_violations(v: crate::types::VaultView) -> Seq<ViolationView> {
    flat(v.blocks, |b: BlockView| metadata_violation(b))
}

/// Every block must have a non-empty name.
fn check_block_metadata(vault: &Vault, out: &mut Vec<Violation>)
    ensures
        violations_view(final(out)@) == violations_view(old(out)@) + metadata_violations(vault@),
{
    let ghost bs = vault@.blocks;
    let ghost f = |b: BlockView| metadata_violation(b);
    let ghost start = violations_view(out@);
    let mut i: usize = 0;
    while i < vault.blocks.len()
        invariant
            i <= vault.blocks.len(),
            bs == blocks_view(vault.blocks@),
            f == (|b: BlockView| metadata_violation(b)),
            violations_view(out@) == start + flat(bs.subrange(0, i as int), f),
        decreases vault.blocks.len() - i,
    {
        let b = &vault.blocks[i];
        proof {
            lemma_flat_step(bs, f, i as int);
        }
        if b.name.as_str().is_empty() {
            push_violation(
                out,
                Violation {
                    description: "Block metadata missing required 'name' field".to_owned(),
                    details: ViolationDetails::MissingMetadataField {
                        block_id: b.id,
                        missing_field: "name".to_owned(),
                    },
                },
            );
        }
        assert(violations_view(out@) =~= start + flat(bs.subrange(0, i + 1), f));
        i += 1;
    }
    assert(bs.subrange(0, vault.blocks.len() as int) =~= bs);
}

// ---- edge endpoints exist ------------------------------------------------------------

pub open spec fn dangling_edge(e: Edge, id: u128, field: Seq<char>, description: Seq<char>) -> Seq<ViolationView> {
    one(
        ViolationView {
            description,
            details: DetailsView::DanglingEdgeUuid { edge_id: e.id, dangling_uuid: id, field },
        },
    )
}

pub open spec fn endpoint_violation(bs: Seq<BlockView>, e: Edge) -> Seq<ViolationView> {
    (if !has_block(bs, e.source) {
        dangling_edge(e, e.source, "source"@, "Edge source UUID does not exist in heap"@)
    } else {
        none()
    }) + (if !has_block(bs, e.target) {
        dangling_edge(e, e.target, "target"@, "Edge target UUID does not exist in heap"@)
    } else {
        none()
    })
}

pub open spec fn endpoint_violations(v: crate::types::VaultView) -> Seq<ViolationView> {
    flat(v.edges, |e: Edge| endpoint_violation(v.blocks, e))
}

/// Every edge source and target must exist in the heap.
fn check_edge_endpoints(vault: &Vault, out: &mut Vec<Violation>)
    ensures
        violations_view(final(out)@) == violations_view(old(out)@) + endpoint_violations(vault@),
{
    let ghost bs = vault@.blocks;
    let ghost es = vault@.edges;
    let ghost f = |e: Edge| endpoint_violation(bs, e);
    let ghost start = violations_view(out@);
    let mut i: usize = 0;
    while i < vault.graph.edges.len()
        invariant
            i <= vault.graph.edges.len(),
            bs == blocks_view(vault.blocks@),
            es == vault.graph.edges@,
            f == (|e: Edge| endpoint_violation(bs, e)),
            violations_view(out@) == start + flat(es.subrange(0, i as int), f),
        decreases vault.graph.edges.len() - i,
    {
        let e = vault.graph.edges[i];
        proof {
            lemma_flat_step(es, f, i as int);
        }
        let ghost mid = violations_view(out@);
        if !contains_block(&vault.blocks, e.source) {
            push_violation(
                out,
                Violation {
                    description: "Edge source UUID does not exist in heap".to_owned(),
                    details: ViolationDetails::DanglingEdgeUuid {
                        edge_id: e.id,
                        dangling_uuid: e.source,
                        field: "source".to_owned(),
                    },
                },
            );
        }
        if !contains_block(&vault.blocks, e.target) {
            push_violation(
                out,
                Violation {
                    description: "Edge target UUID does not exist in heap".to_owned(),
                    details: ViolationDetails::DanglingEdgeUuid {
                        edge_id: e.id,
                        dangling_uuid: e.target,
                        field: "target".to_owned(),
                    },
                },
            );
        }
        assert(violations_view(out@) =~= mid + f(e));
        assert(violations_view(out@) =~= start + flat(es.subrange(0, i + 1), f));
        i += 1;
    }
    assert(es.subrange(0, vault.graph.edges.len() as int) =~= es);
}

// ---- edges connect blocks --------------------------------------------------------------

pub open spec fn block_to_block_violation(bs: Seq<BlockView>, e: Edge) -> Seq<ViolationView> {
    if !has_block(bs, e.source) || !has_block(bs, e.target) {
        one(
            ViolationView {
                description: "Edge endpoint is not a block"@,
                details: DetailsView::InvalidEdgeEndpoint { edge_id: e.id },
            },
        )
    } else {
        none()
    }
}

pub open spec fn block_to_block_violations(v: crate::types::VaultView) -> Seq<ViolationView> {
    flat(v.edges, |e: Edge| block_to_block_violation(v.blocks, e))
}

/// Edges must connect blocks to blocks. A type constraint, distinct from the
/// referential check above; the two agree while only blocks live in the heap.
fn check_edges_are_block_to_block(vault: &Vault, out: &mut Vec<Violation>)
    ensures
        violations_view(final(out)@) == violations_view(old(out)@) + block_to_block_violations(
            vault@,
        ),
{
    let ghost bs = vault@.blocks;
    let ghost es = vault@.edges;
    let ghost f = |e: Edge| block_to_block_violation(bs, e);
    let ghost start = violations_view(out@);
    let mut i: usize = 0;
    while i < vault.graph.edges.len()
        invariant
            i <= vault.graph.edges.len(),
            bs == blocks_view(vault.blocks@),
            es == vault.graph.edges@,
            f == (|e: Edge| block_to_block_violation(bs, e)),
            violations_view(out@) == start + flat(es.subrange(0, i as int), f),
        decreases vault.graph.edges.len() - i,
    {
        let e = vault.graph.edges[i];
        proof {
            lemma_flat_step(es, f, i as int);
        }
        if !contains_block(&vault.blocks, e.source) || !contains_block(&vault.blocks, e.target) {
            push_violation(
                out,
                Violation {
                    description: "Edge endpoint is not a block".to_owned(),
                    details: ViolationDetails::InvalidEdgeEndpoint { edge_id: e.id },
                },
            );
        }
        assert(violations_view(out@) =~= start + flat(es.subrange(0, i + 1), f));
        i += 1;
    }
    assert(es.subrange(0, vault.graph.edges.len() as int) =~= es);
}

// ---- document blocks exist ---------------------------------------------------------------

pub open spec fn dangling_doc(doc_id: u128, id: u128, field: Seq<char>, description: Seq<char>) -> Seq<ViolationView> {
    one(
        ViolationView {
            description,
            details: DetailsView::DanglingDocumentUuid { document_id: doc_id, dangling_uuid: id, field },
        },
    )
}

pub open spec fn sub_ref_violation(bs: Seq<BlockView>, doc_id: u128, x: Subsection) -> Seq<ViolationView> {
    if !has_block(bs, x.block) {
        dangling_doc(doc_id, x.block, "subsection"@, "Document subsection UUID does not exist in heap"@)
    } else {
        none()
    }
}

pub open spec fn section_ref_violations(bs: Seq<BlockView>, doc_id: u128, s: SectionView) -> Seq<ViolationView> {
    (if !has_block(bs, s.block) {
        dangling_doc(doc_id, s.block, "section"@, "Document section UUID does not exist in heap"@)
    } else {
        none()
    }) + flat(s.subsections, |x: Subsection| sub_ref_violation(bs, doc_id, x))
}

pub open spec fn doc_ref_violations(bs: Seq<BlockView>, d: DocumentView) -> Seq<ViolationView> {
    (if !has_block(bs, d.root) {
        dangling_doc(d.id, d.root, "root"@, "Document root UUID does not exist in heap"@)
    } else {
        none()
    }) + flat(d.sections, |s: SectionView| section_ref_violations(bs, d.id, s))
}

pub open spec fn document_ref_violations(v: crate::types::VaultView) -> Seq<ViolationView> {
    flat(v.documents, |d: DocumentView| doc_ref_violations(v.blocks, d))
}

fn check_section_refs(blocks: &Vec<Block>, doc_id: u128, section: &crate::types::Section, out: &mut Vec<Violation>)
    ensures
        violations_view(final(out)@) == violations_view(old(out)@) + section_ref_violations(
            blocks_view(blocks@),
            doc_id,
            section@,
        ),
{
    let ghost bs = blocks_view(blocks@);
    let ghost start = violations_view(out@);
    if !contains_block(blocks, section.block) {
        push_violation(
            out,
            Violation {
                description: "Document section UUID does not exist in heap".to_owned(),
                details: ViolationDetails::DanglingDocumentUuid {
                    document_id: doc_id,
                    dangling_uuid: section.block,
                    field: "section".to_owned(),
                },
            },
        );
    }
    let ghost mid = violations_view(out@);
    let ghost subs = section.subsections@;
    let ghost f = |x: Subsection| sub_ref_violation(bs, doc_id, x);
    let mut j: usize = 0;
    while j < section.subsections.len()
        invariant
            j <= section.subsections.len(),
            bs == blocks_view(blocks@),
            subs == section.subsections@,
            f == (|x: Subsection| sub_ref_violation(bs, doc_id, x)),
            violations_view(out@) == mid + flat(subs.subrange(0, j as int), f),
        decreases section.subsections.len() - j,
    {
        let x = section.subsections[j];
        proof {
            lemma_flat_step(subs, f, j as int);
        }
        if !contains_block(blocks, x.block) {
            push_violation(
                out,
                Violation {
                    description: "Document subsection UUID does not exist in heap".to_owned(),
                    details: ViolationDetails::DanglingDocumentUuid {
                        document_id: doc_id,
                        dangling_uuid: x.block,
                        field: "subsection".to_owned(),
                    },
                },
            );
        }
        assert(violations_view(out@) =~= mid + flat(subs.subrange(0, j + 1), f));
        j += 1;
    }
    assert(subs.subrange(0, section.subsections.len() as int) =~= subs);
    assert(violations_view(out@) =~= start + section_ref_violations(bs, doc_id, section@));
}

fn check_doc_refs(blocks: &Vec<Block>, doc: &crate::types::Document, out: &mut Vec<Violation>)
    ensures
        violations_view(final(out)@) == violations_view(old(out)@) + doc_ref_violations(
            blocks_view(blocks@),
            doc@,
        ),
{
    let ghost bs = blocks_view(blocks@);
    let ghost start = violations_view(out@);
    if !contains_block(blocks, doc.root) {
        push_violation(
            out,
            Violation {
                description: "Document root UUID does not exist in heap".to_owned(),
                details: ViolationDetails::DanglingDocumentUuid {
                    document_id: doc.id,
                    dangling_uuid: doc.root,
                    field: "root".to_owned(),
                },
            },
        );
    }
    let ghost mid = violations_view(out@);
    let ghost ss = doc@.sections;
    let ghost f = |s: SectionView| section_ref_violations(bs, doc.id, s);
    let mut i: usize = 0;
    while i < doc.sections.len()
        invariant
            i <= doc.sections.len(),
            bs == blocks_view(blocks@),
            ss == doc@.sections,
            f == (|s: SectionView| section_ref_violations(bs, doc.id, s)),
            violations_view(out@) == mid + flat(ss.subrange(0, i as int), f),
        decreases doc.sections.len() - i,
    {
        proof {
            lemma_flat_step(ss, f, i as int);
        }
        check_section_refs(blocks, doc.id, &doc.sections[i], out);
        assert(violations_view(out@) =~= mid + flat(ss.subrange(0, i + 1), f));
        i += 1;
    }
    assert(ss.subrange(0, doc.sections.len() as int) =~= ss);
    assert(violations_view(out@) =~= start + doc_ref_violations(bs, doc@));
}

/// Every block id of a document's root, sections and subsections must exist in the heap.
fn check_document_block_refs(vault: &Vault, out: &mut Vec<Violation>)
    ensures
        violations_view(final(out)@) == violations_view(old(out)@) + document_ref_violations(
            vault@,
        ),
{
    let ghost bs = vault@.blocks;
    let ghost ds = vault@.documents;
    let ghost f = |d: DocumentView| doc_ref_violations(bs, d);
    let ghost start = violations_view(out@);
    let mut i: usize = 0;
    while i < vault.documents.len()
        invariant
            i <= vault.documents.len(),
            bs == blocks_view(vault.blocks@),
            ds == documents_view(vault.documents@),
            f == (|d: DocumentView| doc_ref_violations(bs, d)),
            violations_view(out@) == start + flat(ds.subrange(0, i as int), f),
        decreases vault.documents.len() - i,
    {
        proof {
            lemma_flat_step(ds, f, i as int);
        }
        check_doc_refs(&vault.blocks, &vault.documents[i], out);
        assert(violations_view(out@) =~= start + flat(ds.subrange(0, i + 1), f));
        i += 1;
    }
    assert(ds.subrange(0, vault.documents.len() as int) =~= ds);
}

// ---- no block twice in a document ----------------------------------------------------------

/// A section's block followed by its subsections' blocks.
pub open spec fn section_ids(s: SectionView) -> Seq<u128> {
    seq![s.block] + s.subsections.map_values(|x: Subsection| x.block)
}

/// The blocks of a document's hierarchy in reading order: root, then each section
/// followed by its subsections.
pub open spec fn hierarchy(d: DocumentView) -> Seq<u128> {
    seq![d.root] + flat(d.sections, |s: SectionView| section_ids(s))
}

pub open spec fn cycle_violation(doc_id: u128, id: u128) -> ViolationView {
    ViolationView {
        description: "Block appears multiple times in document hierarchy"@,
        details: DetailsView::DocumentCycle { document_id: doc_id, block_id: id },
    }
}

/// One violation for each position of `h` whose id already occurred before it.
pub open spec fn repeat_violations(doc_id: u128, h: Seq<u128>) -> Seq<ViolationView>
    decreases h.len(),
{
    if h.len() == 0 {
        none()
    } else {
        repeat_violations(doc_id, h.drop_last()) + (if h.drop_last().contains(h.last()) {
            one(cycle_violation(doc_id, h.last()))
        } else {
            none()
        })
    }
}

pub open spec fn cycle_violations(v: crate::types::VaultView) -> Seq<ViolationView> {
    flat(v.documents, |d: DocumentView| repeat_violations(d.id, hierarchy(d)))
}

fn hierarchy_ids(doc: &crate::types::Document) -> (r: Vec<u128>)
    ensures
        r@ == hierarchy(doc@),
{
    let ghost ss = doc@.sections;
    let ghost g = |s: SectionView| section_ids(s);
    let mut h: Vec<u128> = Vec::new();
    h.push(doc.root);
    let mut i: usize = 0;
    while i < doc.sections.len()
        invariant
            i <= doc.sections.len(),
            ss == doc@.sections,
            g == (|s: SectionView| section_ids(s)),
            h@ == seq![doc.root] + flat(ss.subrange(0, i as int), g),
        decreases doc.sections.len() - i,
    {
        proof {
            lemma_flat_step(ss, g, i as int);
        }
        let section = &doc.sections[i];
        let ghost before = h@;
        h.push(section.block);
        let mut j: usize = 0;
        while j < section.subsections.len()
            invariant
                j <= section.subsections.len(),
                h@ == before + seq![section.block] + section.subsections@.subrange(0, j as int).map_values(
                    |x: Subsection| x.block,
                ),
            decreases section.subsections.len() - j,
        {
            h.push(section.subsections[j].block);
            assert(section.subsections@.subrange(0, j + 1).map_values(|x: Subsection| x.block)
                =~= section.subsections@.subrange(0, j as int).map_values(|x: Subsection| x.block).push(
                section.subsections@[j as int].block,
            ));
            j += 1;
        }
        assert(section.subsections@.subrange(0, section.subsections.len() as int)
            =~= section.subsections@);
        assert(ss[i as int] == section@);
        assert(h@ =~= seq![doc.root] + flat(ss.subrange(0, i + 1), g));
        i += 1;
    }
    assert(ss.subrange(0, doc.sections.len() as int) =~= ss);
    h
}

fn occurs_before(h: &Vec<u128>, k: usize) -> (r: bool)
    requires
        k < h.len(),
    ensures
        r == h@.subrange(0, k as int).contains(h@[k as int]),
{
    let mut j: usize = 0;
    while j < k
        invariant
            j <= k < h.len(),
            forall|m: int| 0 <= m < j ==> h@[m] != h@[k as int],
        decreases k - j,
    {
        if h[j] == h[k] {
            assert(h@.subrange(0, k as int)[j as int] == h@[k as int]);
            return true;
        }
        j += 1;
    }
    false
}

fn check_doc_cycles(doc: &crate::types::Document, out: &mut Vec<Violation>)
    ensures
        violations_view(final(out)@) == violations_view(old(out)@) + repeat_violations(
            doc.id,
            hierarchy(doc@),
        ),
{
    let h = hierarchy_ids(doc);
    let ghost start = violations_view(out@);
    let mut k: usize = 0;
    while k < h.len()
        invariant
            k <= h.len(),
            violations_view(out@) == start + repeat_violations(doc.id, h@.subrange(0, k as int)),
        decreases h.len() - k,
    {
        let repeated = occurs_before(&h, k);
        assert(h@.subrange(0, k + 1).drop_last() =~= h@.subrange(0, k as int));
        if repeated {
            push_violation(
                out,
                Violation {
                    description: "Block appears multiple times in document hierarchy".to_owned(),
                    details: ViolationDetails::DocumentCycle { document_id: doc.id, block_id: h[k] },
                },
            );
        }
        assert(violations_view(out@) =~= start + repeat_violations(doc.id, h@.subrange(0, k + 1)));
        k += 1;
    }
    assert(h@.subrange(0, h.len() as int) =~= h@);
}

/// No block may appear more than once in a document's hierarchy.
fn check_document_acyclicity(vault: &Vault, out: &mut Vec<Violation>)
    ensures
        violations_view(final(out)@) == violations_view(old(out)@) + cycle_violations(vault@),
{
    let ghost ds = vault@.documents;
    let ghost f = |d: DocumentView| repeat_violations(d.id, hierarchy(d));
    let ghost start = violations_view(out@);
    let mut i: usize = 0;
    while i < vault.documents.len()
        invariant
            i <= vault.documents.len(),
            ds == documents_view(vault.documents@),
            f == (|d: DocumentView| repeat_violations(d.id, hierarchy(d))),
            violations_view(out@) == start + flat(ds.subrange(0, i as int), f),
        decreases vault.documents.len() - i,
    {
        proof {
            lemma_flat_step(ds, f, i as int);
        }
        check_doc_cycles(&vault.documents[i], out);
        assert(violations_view(out@) =~= start + flat(ds.subrange(0, i + 1), f));
        i += 1;
    }
    assert(ds.subrange(0, vault.documents.len() as int) =~= ds);
}

// ---- inline references are annotated and backed by edges ----------------------------------

pub open spec fn has_edge_pair(es: Seq<Edge>, source: u128, target: u128) -> bool {
    exists|i: int| 0 <= i < es.len() && es[i].source == source && es[i].target == target
}

pub open spec fn ref_annotation_violation(
    es: Seq<Edge>,
    block_id: u128,
    footer: Seq<(Seq<char>, u128)>,
    r: Seq<char>,
) -> Seq<ViolationView> {
    match assoc_first(footer, r) {
        None => one(
            ViolationView {
                description: "Inline reference [["@ + r + "]] has no footer annotation"@,
                details: DetailsView::MissingFooterAnnotation { block_id, referenced_name: r },
            },
        ),
        Some(t) => if !has_edge_pair(es, block_id, t) {
            one(
                ViolationView {
                    description: "Inline reference [["@ + r
                        + "]] has no corresponding edge in block-graph.json"@,
                    details: DetailsView::MissingEdgeForRef {
                        block_id,
                        referenced_name: r,
                        target_id: t,
                    },
                },
            )
        } else {
            none()
        },
    }
}

pub open spec fn block_annotation_violations(es: Seq<Edge>, b: BlockView) -> Seq<ViolationView> {
    flat(
        inline_refs(b.content),
        |r: Seq<char>| ref_annotation_violation(es, b.id, footer_annotations(b.content), r),
    )
}

pub open spec fn annotation_violations(v: crate::types::VaultView) -> Seq<ViolationView> {
    flat(v.blocks, |b: BlockView| block_annotation_violations(v.edges, b))
}

fn has_edge(edges: &Vec<Edge>, source: u128, target: u128) -> (r: bool)
    ensures
        r == has_edge_pair(edges@, source, target),
{
    let mut i: usize = 0;
    while i < edges.len()
        invariant
            i <= edges.len(),
            forall|j: int|
                0 <= j < i ==> !(edges@[j].source == source && edges@[j].target == target),
        decreases edges.len() - i,
    {
        if edges[i].source == source && edges[i].target == target {
            return true;
        }
        i += 1;
    }
    false
}

fn check_block_annotations(edges: &Vec<Edge>, block: &Block, out: &mut Vec<Violation>)
    ensures
        violations_view(final(out)@) == violations_view(old(out)@) + block_annotation_violations(
            edges@,
            block@,
        ),
{
    let refs = extract_inline_refs(block.content.as_str());
    let footer = extract_footer_annotations(block.content.as_str());
    let ghost rs = inline_refs(block@.content);
    let ghost fm = footer_annotations(block@.content);
    let ghost f = |r: Seq<char>| ref_annotation_violation(edges@, block.id, fm, r);
    let ghost start = violations_view(out@);
    let mut i: usize = 0;
    while i < refs.len()
        invariant
            i <= refs.len(),
            rs == crate::content::strings_view(refs@),
            fm == crate::text::pairs_view(footer@),
            f == (|r: Seq<char>| ref_annotation_violation(edges@, block.id, fm, r)),
            violations_view(out@) == start + flat(rs.subrange(0, i as int), f),
        decreases refs.len() - i,
    {
        let r = &refs[i];
        assert(rs[i as int] == r@);
        proof {
            lemma_flat_step(rs, f, i as int);
        }
        match assoc_find(&footer, r.as_str()) {
            None => {
                push_violation(
                    out,
                    Violation {
                        description: concat3(
                            "Inline reference [[",
                            r.as_str(),
                            "]] has no footer annotation",
                        ),
                        details: ViolationDetails::MissingFooterAnnotation {
                            block_id: block.id,
                            referenced_name: r.clone(),
                        },
                    },
                );
            },
            Some(t) => {
                if !has_edge(edges, block.id, t) {
                    push_violation(
                        out,
                        Violation {
                            description: concat3(
                                "Inline reference [[",
                                r.as_str(),
                                "]] has no corresponding edge in block-graph.json",
                            ),
                            details: ViolationDetails::MissingEdgeForRef {
                                block_id: block.id,
                                referenced_name: r.clone(),
                                target_id: t,
                            },
                        },
                    );
                }
            },
        }
        assert(violations_view(out@) =~= start + flat(rs.subrange(0, i + 1), f));
        i += 1;
    }
    assert(rs.subrange(0, refs.len() as int) =~= rs);
}

/// Every `[[Name]]` inline reference must have a footer annotation and a matching edge.
fn check_inline_ref_annotations(vault: &Vault, out: &mut Vec<Violation>)
    ensures
        violations_view(final(out)@) == violations_view(old(out)@) + annotation_violations(vault@),
{
    let ghost bs = vault@.blocks;
    let ghost f = |b: BlockView| block_annotation_violations(vault@.edges, b);
    let ghost start = violations_view(out@);
    let mut i: usize = 0;
    while i < vault.blocks.len()
        invariant
            i <= vault.blocks.len(),
            bs == blocks_view(vault.blocks@),
            f == (|b: BlockView| block_annotation_violations(vault@.edges, b)),
            violations_view(out@) == start + flat(bs.subrange(0, i as int), f),
        decreases vault.blocks.len() - i,
    {
        proof {
            lemma_flat_step(bs, f, i as int);
        }
        check_block_annotations(&vault.graph.edges, &vault.blocks[i], out);
        assert(violations_view(out@) =~= start + flat(bs.subrange(0, i + 1), f));
        i += 1;
    }
    assert(bs.subrange(0, vault.blocks.len() as int) =~= bs);
}

// ---- footer annotations resolve ---------------------------------------------------------------

pub open spec fn footer_target_violation(
    bs: Seq<BlockView>,
    names: Seq<(Seq<char>, u128)>,
    block_id: u128,
    p: (Seq<char>, u128),
) -> Seq<ViolationView> {
    if !has_block(bs, p.1) || assoc_first(names, p.0) != Some(p.1) {
        one(
            ViolationView {
                description: "Footer annotation ["@ + p.0 + "] does not resolve to an existing block"@,
                details: DetailsView::DanglingFooterAnnotation { block_id, name: p.0 },
            },
        )
    } else {
        none()
    }
}

pub open spec fn block_footer_violations(
    bs: Seq<BlockView>,
    names: Seq<(Seq<char>, u128)>,
    b: BlockView,
) -> Seq<ViolationView> {
    flat(
        footer_annotations(b.content),
        |p: (Seq<char>, u128)| footer_target_violation(bs, names, b.id, p),
    )
}

pub open spec fn footer_violations(v: crate::types::VaultView) -> Seq<ViolationView> {
    flat(v.blocks, |b: BlockView| block_footer_violations(v.blocks, v.names, b))
}

fn check_block_footer(vault: &Vault, block: &Block, out: &mut Vec<Violation>)
    ensures
        violations_view(final(out)@) == violations_view(old(out)@) + block_footer_violations(
            vault@.blocks,
            vault@.names,
            block@,
        ),
{
    let footer = extract_footer_annotations(block.content.as_str());
    let ghost fm = footer_annotations(block@.content);
    let ghost f = |p: (Seq<char>, u128)| footer_target_violation(vault@.blocks, vault@.names, block.id, p);
    let ghost start = violations_view(out@);
    let mut i: usize = 0;
    while i < footer.len()
        invariant
            i <= footer.len(),
            fm == crate::text::pairs_view(footer@),
            f == (|p: (Seq<char>, u128)|
                footer_target_violation(vault@.blocks, vault@.names, block.id, p)),
            violations_view(out@) == start + flat(fm.subrange(0, i as int), f),
        decreases footer.len() - i,
    {
        let name = &footer[i].0;
        let target = footer[i].1;
        assert(fm[i as int] == (name@, target));
        proof {
            lemma_flat_step(fm, f, i as int);
        }
        let target_exists = contains_block(&vault.blocks, target);
        let resolved = assoc_find(&vault.names, name.as_str());
        let name_resolves = match resolved {
            Some(id) => id == target,
            None => false,
        };
        if !target_exists || !name_resolves {
            push_violation(
                out,
                Violation {
                    description: concat3(
                        "Footer annotation [",
                        name.as_str(),
                        "] does not resolve to an existing block",
                    ),
                    details: ViolationDetails::DanglingFooterAnnotation {
                        block_id: block.id,
                        name: name.clone(),
                    },
                },
            );
        }
        assert(violations_view(out@) =~= start + flat(fm.subrange(0, i + 1), f));
        i += 1;
    }
    assert(fm.subrange(0, footer.len() as int) =~= fm);
}

/// Every footer annotation must name a block that the name index resolves to it.
fn check_footer_annotation_targets(vault: &Vault, out: &mut Vec<Violation>)
    ensures
        violations_view(final(out)@) == violations_view(old(out)@) + footer_violations(vault@),
{
    let ghost bs = vault@.blocks;
    let ghost f = |b: BlockView| block_footer_violations(vault@.blocks, vault@.names, b);
    let ghost start = violations_view(out@);
    let mut i: usize = 0;
    while i < vault.blocks.len()
        invariant
            i <= vault.blocks.len(),
            bs == blocks_view(vault.blocks@),
            f == (|b: BlockView| block_footer_violations(vault@.blocks, vault@.names, b)),
            violations_view(out@) == start + flat(bs.subrange(0, i as int), f),
        decreases vault.blocks.len() - i,
    {
        proof {
            lemma_flat_step(bs, f, i as int);
        }
        check_block_footer(vault, &vault.blocks[i], out);
        assert(violations_view(out@) =~= start + flat(bs.subrange(0, i + 1), f));
        i += 1;
    }
    assert(bs.subrange(0, vault.blocks.len() as int) =~= bs);
}

// ---- names are unique, ignoring case --------------------------------------------------------

/// A named block whose name equals `key` ignoring case.
pub open spec fn same_name(key: Seq<char>) -> spec_fn(BlockView) -> bool {
    |b: BlockView| b.name.len() > 0 && lowercase(b.name) == key
}

/// Block `i` is the first of its case-insensitive name group.
pub open spec fn opens_group(bs: Seq<BlockView>, i: int) -> bool {
    &&& bs[i].name.len() > 0
    &&& forall|j: int| 0 <= j < i ==> !same_name(lowercase(bs[i].name))(bs[j])
}

pub open spec fn group_violation(bs: Seq<BlockView>, i: int) -> Seq<ViolationView> {
    let group = keep(bs, same_name(lowercase(bs[i].name)));
    if opens_group(bs, i) && group.len() > 1 {
        one(
            ViolationView {
                description: "Multiple blocks share the name '"@ + bs[i].name
                    + "' (case-insensitive)"@,
                details: DetailsView::DuplicateName { name: bs[i].name, block_ids: block_ids(group) },
            },
        )
    } else {
        none()
    }
}

/// One violation per name shared by several blocks, reported at the group's first
/// block, with the group's ids in heap order.
pub open spec fn group_violations(bs: Seq<BlockView>, n: int) -> Seq<ViolationView>
    decreases n,
{
    if n <= 0 {
        none()
    } else {
        group_violations(bs, n - 1) + group_violation(bs, n - 1)
    }
}

pub open spec fn name_violations(v: crate::types::VaultView) -> Seq<ViolationView> {
    group_violations(v.blocks, v.blocks.len() as int)
}

fn group_ids(blocks: &Vec<Block>, key: &String) -> (r: Vec<u128>)
    ensures
        r@ == block_ids(keep(blocks_view(blocks@), same_name(key@))),
{
    let ghost bs = blocks_view(blocks@);
    let ghost f = same_name(key@);
    let mut ids: Vec<u128> = Vec::new();
    let mut j: usize = 0;
    while j < blocks.len()
        invariant
            j <= blocks.len(),
            bs == blocks_view(blocks@),
            f == same_name(key@),
            ids@ == block_ids(keep(bs.subrange(0, j as int), f)),
        decreases blocks.len() - j,
    {
        let b = &blocks[j];
        let hit = !b.name.as_str().is_empty() && to_lower(b.name.as_str()) == *key;
        assert(hit == f(bs[j as int]));
        assert(bs.subrange(0, j + 1).drop_last() =~= bs.subrange(0, j as int));
        let ghost before = keep(bs.subrange(0, j as int), f);
        if hit {
            ids.push(b.id);
            assert(block_ids(before.push(bs[j as int])) =~= block_ids(before).push(b.id));
        }
        j += 1;
    }
    assert(bs.subrange(0, blocks.len() as int) =~= bs);
    ids
}

fn first_of_group(blocks: &Vec<Block>, i: usize, key: &String) -> (r: bool)
    requires
        i < blocks.len(),
        blocks@[i as int].name@.len() > 0,
        key@ == lowercase(blocks@[i as int].name@),
    ensures
        r == opens_group(blocks_view(blocks@), i as int),
{
    let ghost bs = blocks_view(blocks@);
    let mut j: usize = 0;
    while j < i
        invariant
            j <= i < blocks.len(),
            bs == blocks_view(blocks@),
            key@ == lowercase(bs[i as int].name),
            bs[i as int].name.len() > 0,
            forall|m: int| 0 <= m < j ==> !same_name(lowercase(bs[i as int].name))(bs[m]),
        decreases i - j,
    {
        let b = &blocks[j];
        if !b.name.as_str().is_empty() && to_lower(b.name.as_str()) == *key {
            assert(same_name(lowercase(bs[i as int].name))(bs[j as int]));
            return false;
        }
        j += 1;
    }
    true
}

/// Block names must be unique vault-wide, ignoring case: "Meeting Notes" and
/// "meeting notes" are duplicates.
fn check_name_uniqueness(vault: &Vault, out: &mut Vec<Violation>)
    ensures
        violations_view(final(out)@) == violations_view(old(out)@) + name_violations(vault@),
{
    let ghost bs = vault@.blocks;
    let ghost start = violations_view(out@);
    let mut i: usize = 0;
    while i < vault.blocks.len()
        invariant
            i <= vault.blocks.len(),
            bs == blocks_view(vault.blocks@),
            violations_view(out@) == start + group_violations(bs, i as int),
        decreases vault.blocks.len() - i,
    {
        let b = &vault.blocks[i];
        if !b.name.as_str().is_empty() {
            let key = to_lower(b.name.as_str());
            if first_of_group(&vault.blocks, i, &key) {
                let ids = group_ids(&vault.blocks, &key);
                if ids.len() > 1 {
                    let d = concat3(
                        "Multiple blocks share the name '",
                        b.name.as_str(),
                        "' (case-insensitive)",
                    );
                    push_violation(
                        out,
                        Violation {
                            description: d,
                            details: ViolationDetails::DuplicateName {
                                name: b.name.clone(),
                                block_ids: ids,
                            },
                        },
                    );
                }
            }
        }
        assert(violations_view(out@) =~= start + group_violations(bs, i + 1));
        i += 1;
    }
}

// ---- names carry no reserved characters -------------------------------------------------------

pub open spec fn reserved_violation(b: BlockView) -> Seq<ViolationView> {
    if has_reserved_characters(b.name) {
        one(
            ViolationView {
                description: "Block name contains reserved characters ('[' or ']')"@,
                details: DetailsView::NameContainsReservedCharacters { block_id: b.id, name: b.name },
            },
        )
    } else {
        none()
    }
}

pub open spec fn reserved_violations(v: crate::types::VaultView) -> Seq<ViolationView> {
    flat(v.blocks, |b: BlockView| reserved_violation(b))
}

/// Block names must not contain `[` or `]`, reserved for link syntax.
fn check_reserved_characters(vault: &Vault, out: &mut Vec<Violation>)
    ensures
        violations_view(final(out)@) == violations_view(old(out)@) + reserved_violations(vault@),
{
    let ghost bs = vault@.blocks;
    let ghost f = |b: BlockView| reserved_violation(b);
    let ghost start = violations_view(out@);
    let mut i: usize = 0;
    while i < vault.blocks.len()
        invariant
            i <= vault.blocks.len(),
            bs == blocks_view(vault.blocks@),
            f == (|b: BlockView| reserved_violation(b)),
            violations_view(out@) == start + flat(bs.subrange(0, i as int), f),
        decreases vault.blocks.len() - i,
    {
        let b = &vault.blocks[i];
        proof {
            lemma_flat_step(bs, f, i as int);
        }
        if name_has_reserved_characters(b.name.as_str()) {
            push_violation(
                out,
                Violation {
                    description: "Block name contains reserved characters ('[' or ']')".to_owned(),
                    details: ViolationDetails::NameContainsReservedCharacters {
                        block_id: b.id,
                        name: b.name.clone(),
                    },
                },
            );
        }
        assert(violations_view(out@) =~= start + flat(bs.subrange(0, i + 1), f));
        i += 1;
    }
    assert(bs.subrange(0, vault.blocks.len() as int) =~= bs);
}

// ---- no headings in block content ---------------------------------------------------------------

pub open spec fn heading_violation(b: BlockView) -> Seq<ViolationView> {
    match first_heading(b.content) {
        Some((level, text)) => one(
            ViolationView {
                description: "Block content contains heading syntax outside fenced code block"@,
                details: DetailsView::HeadingInContent {
                    block_id: b.id,
                    heading_text: text,
                    heading_level: level,
                },
            },
        ),
        None => none(),
    }
}

pub open spec fn heading_violations(v: crate::types::VaultView) -> Seq<ViolationView> {
    flat(v.blocks, |b: BlockView| heading_violation(b))
}

/// No block content may hold heading syntax (h1–h6) outside fenced code blocks.
fn check_no_headings_in_content(vault: &Vault, out: &mut Vec<Violation>)
    ensures
        violations_view(final(out)@) == violations_view(old(out)@) + heading_violations(vault@),
{
    let ghost bs = vault@.blocks;
    let ghost f = |b: BlockView| heading_violation(b);
    let ghost start = violations_view(out@);
    let mut i: usize = 0;
    while i < vault.blocks.len()
        invariant
            i <= vault.blocks.len(),
            bs == blocks_view(vault.blocks@),
            f == (|b: BlockView| heading_violation(b)),
            violations_view(out@) == start + flat(bs.subrange(0, i as int), f),
        decreases vault.blocks.len() - i,
    {
        let b = &vault.blocks[i];
        proof {
            lemma_flat_step(bs, f, i as int);
        }
        match find_heading_outside_fence(b.content.as_str()) {
            Some((level, text)) => {
                push_violation(
                    out,
                    Violation {
                        description: "Block content contains heading syntax outside fenced code block".to_owned(),
                        details: ViolationDetails::HeadingInContent {
                            block_id: b.id,
                            heading_text: text,
                            heading_level: level,
                        },
                    },
                );
            },
            None => {},
        }
        assert(violations_view(out@) =~= start + flat(bs.subrange(0, i + 1), f));
        i += 1;
    }
    assert(bs.subrange(0, vault.blocks.len() as int) =~= bs);
}

// ---- the whole vault ------------------------------------------------------------------------------

/// Every violation of the vault, check by check in a fixed order.
pub open spec fn vault_violations(v: crate::types::VaultView) -> Seq<ViolationView> {
    metadata_violations(v) + endpoint_violations(v) + block_to_block_violations(v)
        + document_ref_violations(v) + cycle_violations(v) + annotation_violations(v)
        + footer_violations(v) + name_violations(v) + reserved_violations(v)
        + heading_violations(v)
}

/// Validate the vault against every invariant and structural check; empty when the
/// vault conforms.
pub fn validate_vault(vault: &Vault) -> (r: Vec<Violation>)
    ensures
        violations_view(r@) == vault_violations(vault@),
{
    let mut out: Vec<Violation> = Vec::new();
    assert(violations_view(out@) =~= none());
    check_block_metadata(vault, &mut out);
    check_edge_endpoints(vault, &mut out);
    check_edges_are_block_to_block(vault, &mut out);
    check_document_block_refs(vault, &mut out);
    check_document_acyclicity(vault, &mut out);
    check_inline_ref_annotations(vault, &mut out);
    check_footer_annotation_targets(vault, &mut out);
    check_name_uniqueness(vault, &mut out);
    check_reserved_characters(vault, &mut out);
    check_no_headings_in_content(vault, &mut out);
    out
}


// ---- repeated blocks in a document are reported -------------------------------------------

/// Where an id occurs twice, a cycle violation for the document is reported.
proof fn lemma_repeat_reported(doc_id: u128, h: Seq<u128>, p: int, q: int)
    requires
        0 <= p < q < h.len(),
        h[p] == h[q],
    ensures
        exists|y: u128| repeat_violations(doc_id, h).contains(cycle_violation(doc_id, y)),
    decreases h.len(),
{
    let d = h.drop_last();
    if q == h.len() - 1 {
        assert(d[p] == h.last());
        assert(d.contains(h.last()));
        let r = repeat_violations(doc_id, h);
        assert(r[r.len() - 1] == cycle_violation(doc_id, h.last()));
    } else {
        assert(d[p] == d[q]);
        lemma_repeat_reported(doc_id, d, p, q);
        let y = choose|y: u128| repeat_violations(doc_id, d).contains(cycle_violation(doc_id, y));
        let r0 = repeat_violations(doc_id, d);
        let k = choose|k: int| 0 <= k < r0.len() && r0[k] == cycle_violation(doc_id, y);
        assert(repeat_violations(doc_id, h)[k] == r0[k]);
    }
}

/// What a part of a flattening holds, the flattening holds.
proof fn lemma_flat_member<A, B>(s: Seq<A>, f: spec_fn(A) -> Seq<B>, k: int, x: B)
    requires
        0 <= k < s.len(),
        f(s[k]).contains(x),
    ensures
        flat(s, f).contains(x),
{
    let part = f(s[k]);
    let t = choose|t: int| 0 <= t < part.len() && #[trigger] part[t] == x;
    lemma_flat_index(s, f, k, t);
}

/// A document's violations are among the vault's.
proof fn lemma_cycle_in_vault(v: crate::types::VaultView, k: int, x: ViolationView)
    requires
        0 <= k < v.documents.len(),
        repeat_violations(v.documents[k].id, hierarchy(v.documents[k])).contains(x),
    ensures
        vault_violations(v).contains(x),
{
    lemma_flat_member(
        v.documents,
        |d: DocumentView| repeat_violations(d.id, hierarchy(d)),
        k,
        x,
    );
    let c = cycle_violations(v);
    let t = choose|t: int| 0 <= t < c.len() && c[t] == x;
    let pre = metadata_violations(v) + endpoint_violations(v) + block_to_block_violations(v)
        + document_ref_violations(v);
    let all = vault_violations(v);
    assert(all[pre.len() + t] == x);
}

/// In a document's hierarchy, section `i`'s block and subsection `m` of section `j`
/// stand at different positions.
proof fn lemma_hierarchy_positions(d: DocumentView, i: int, j: int, m: int) -> (pq: (int, int))
    requires
        0 <= i < d.sections.len(),
        0 <= j < d.sections.len(),
        0 <= m < d.sections[j].subsections.len(),
    ensures
        0 < pq.0 < hierarchy(d).len(),
        0 < pq.1 < hierarchy(d).len(),
        pq.0 != pq.1,
        hierarchy(d)[pq.0] == d.sections[i].block,
        hierarchy(d)[pq.1] == d.sections[j].subsections[m].block,
{
    let g = |s: SectionView| section_ids(s);
    let ss = d.sections;
    let oi = flat(ss.subrange(0, i), g).len() as int;
    let oj = flat(ss.subrange(0, j), g).len() as int;
    lemma_flat_index(ss, g, i, 0);
    lemma_flat_index(ss, g, j, 1 + m);
    assert(g(ss[i])[0] == ss[i].block);
    assert(g(ss[j])[1 + m] == ss[j].subsections[m].block);
    if i < j {
        lemma_flat_offsets(ss, g, i, j);
    } else if j < i {
        lemma_flat_offsets(ss, g, j, i);
    }
    let h = hierarchy(d);
    assert(h[1 + oi] == flat(ss, g)[oi]);
    assert(h[1 + oj + 1 + m] == flat(ss, g)[oj + 1 + m]);
    (1 + oi, 1 + oj + 1 + m)
}

/// A block that is both a section and a subsection of a document makes the vault
/// invalid: validation reports a document cycle for that document.
pub proof fn law_section_repeated_as_subsection_is_reported(
    v: crate::types::VaultView,
    k: int,
    i: int,
    j: int,
    m: int,
)
    requires
        0 <= k < v.documents.len(),
        0 <= i < v.documents[k].sections.len(),
        0 <= j < v.documents[k].sections.len(),
        0 <= m < v.documents[k].sections[j].subsections.len(),
        v.documents[k].sections[j].subsections[m].block == v.documents[k].sections[i].block,
    ensures
        exists|y: u128| vault_violations(v).contains(cycle_violation(v.documents[k].id, y)),
{
    let d = v.documents[k];
    let (p, q) = lemma_hierarchy_positions(d, i, j, m);
    let h = hierarchy(d);
    if p < q {
        lemma_repeat_reported(d.id, h, p, q);
    } else {
        lemma_repeat_reported(d.id, h, q, p);
    }
    let y = choose|y: u128| repeat_violations(d.id, h).contains(cycle_violation(d.id, y));
    lemma_cycle_in_vault(v, k, cycle_violation(d.id, y));
}

/// A document whose root is also one of its subsections makes the vault invalid:
/// validation reports a document cycle for that document.
pub proof fn law_root_repeated_as_subsection_is_reported(
    v: crate::types::VaultView,
    k: int,
    j: int,
    m: int,
)
    requires
        0 <= k < v.documents.len(),
        0 <= j < v.documents[k].sections.len(),
        0 <= m < v.documents[k].sections[j].subsections.len(),
        v.documents[k].sections[j].subsections[m].block == v.documents[k].root,
    ensures
        exists|y: u128| vault_violations(v).contains(cycle_violation(v.documents[k].id, y)),
{
    let d = v.documents[k];
    let (p, q) = lemma_hierarchy_positions(d, j, j, m);
    let h = hierarchy(d);
    assert(h[0] == d.root);
    lemma_repeat_reported(d.id, h, 0, q);
    let y = choose|y: u128| repeat_violations(d.id, h).contains(cycle_violation(d.id, y));
    lemma_cycle_in_vault(v, k, cycle_violation(d.id, y));
}

} // verus!
