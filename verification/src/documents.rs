//! Document factory, projection and section operations.

use vstd::prelude::*;

use crate::types::{
    block_lookup, blocks_view, clone_sections, copy_vec, find_block, sections_view, Block,
    BlockView, Document, DocumentView, Section, SectionView, Subsection,
};

verus! {

/// A document with a root and no sections.
pub fn create(id: u128, root: u128) -> (d: Document)
    ensures
        d@ == (DocumentView { id, root, sections: Seq::empty() }),
{
    let d = Document { id, root, sections: Vec::new() };
    assert(d@.sections =~= Seq::<SectionView>::empty());
    d
}

/// The `(level, block)` entries of the subsections whose blocks are in the heap.
pub open spec fn project_subsections(subs: Seq<Subsection>, bs: Seq<BlockView>) -> Seq<
    (u8, BlockView),
>
    decreases subs.len(),
{
    if subs.len() == 0 {
        Seq::empty()
    } else {
        project_subsections(subs.drop_last(), bs) + match block_lookup(bs, subs.last().block) {
            Some(b) => seq![(3u8, b)],
            None => Seq::empty(),
        }
    }
}

/// The entries of the sections (each followed by its subsections) in the heap.
pub open spec fn project_sections(ss: Seq<SectionView>, bs: Seq<BlockView>) -> Seq<(u8, BlockView)>
    decreases ss.len(),
{
    if ss.len() == 0 {
        Seq::empty()
    } else {
        project_sections(ss.drop_last(), bs) + (match block_lookup(bs, ss.last().block) {
            Some(b) => seq![(2u8, b)],
            None => Seq::empty(),
        }) + project_subsections(ss.last().subsections, bs)
    }
}

/// A document as an ordered list of `(heading_level, block)`: root 1, section 2,
/// subsection 3; blocks missing from the heap skipped.
pub open spec fn projection(d: DocumentView, bs: Seq<BlockView>) -> Seq<(u8, BlockView)> {
    (match block_lookup(bs, d.root) {
        Some(b) => seq![(1u8, b)],
        None => Seq::empty(),
    }) + project_sections(d.sections, bs)
}

pub open spec fn projection_view(p: Seq<(u8, Block)>) -> Seq<(u8, BlockView)> {
    p.map_values(|e: (u8, Block)| (e.0, e.1@))
}

fn push_entry(out: &mut Vec<(u8, Block)>, level: u8, found: Option<&Block>, ghost_expect: Ghost<
    Seq<(u8, BlockView)>,
>)
    requires
        ghost_expect@ == match found {
            Some(b) => seq![(level, b@)],
            None => Seq::<(u8, BlockView)>::empty(),
        },
    ensures
        projection_view(final(out)@) == projection_view(old(out)@) + ghost_expect@,
{
    match found {
        Some(b) => {
            let ghost before = out@;
            out.push((level, b.clone()));
            assert(projection_view(out@) =~= projection_view(before) + ghost_expect@);
        },
        None => {
            assert(projection_view(out@) =~= projection_view(out@) + ghost_expect@);
        },
    }
}

/// Project a document into an ordered list of `(heading_level, block)` pairs.
///
/// Level mapping: root → 1, section → 2, subsection → 3. Blocks missing from the heap
/// are skipped.
pub fn project(doc: &Document, blocks: &Vec<Block>) -> (r: Vec<(u8, Block)>)
    ensures
        projection_view(r@) == projection(doc@, blocks_view(blocks@)),
{
    let ghost bs = blocks_view(blocks@);
    let mut out: Vec<(u8, Block)> = Vec::new();
    let root = find_block(blocks, doc.root);
    push_entry(
        &mut out,
        1,
        root,
        Ghost(
            match block_lookup(bs, doc.root) {
                Some(b) => seq![(1u8, b)],
                None => Seq::empty(),
            },
        ),
    );
    let ghost head = projection_view(out@);
    assert(head =~= Seq::<(u8, BlockView)>::empty() + match block_lookup(bs, doc.root) {
        Some(b) => seq![(1u8, b)],
        None => Seq::<(u8, BlockView)>::empty(),
    });
    let mut i: usize = 0;
    while i < doc.sections.len()
        invariant
            i <= doc.sections.len(),
            bs == blocks_view(blocks@),
            projection_view(out@) == head + project_sections(
                sections_view(doc.sections@).subrange(0, i as int),
                bs,
            ),
        decreases doc.sections.len() - i,
    {
        let section = &doc.sections[i];
        let ghost ss = sections_view(doc.sections@);
        let ghost before = projection_view(out@);
        let found = find_block(blocks, section.block);
        push_entry(
            &mut out,
            2,
            found,
            Ghost(
                match block_lookup(bs, section.block) {
                    Some(b) => seq![(2u8, b)],
                    None => Seq::empty(),
                },
            ),
        );
        let ghost mid = projection_view(out@);
        let mut k: usize = 0;
        while k < section.subsections.len()
            invariant
                k <= section.subsections.len(),
                bs == blocks_view(blocks@),
                projection_view(out@) == mid + project_subsections(
                    section.subsections@.subrange(0, k as int),
                    bs,
                ),
            decreases section.subsections.len() - k,
        {
            let sub = section.subsections[k];
            let ghost b2 = projection_view(out@);
            let f2 = find_block(blocks, sub.block);
            push_entry(
                &mut out,
                3,
                f2,
                Ghost(
                    match block_lookup(bs, sub.block) {
                        Some(b) => seq![(3u8, b)],
                        None => Seq::empty(),
                    },
                ),
            );
            proof {
                assert(section.subsections@.subrange(0, k + 1).drop_last() =~= section.subsections@.subrange(
                    0,
                    k as int,
                ));
                assert(mid + project_subsections(section.subsections@.subrange(0, k + 1), bs) =~= b2
                    + match block_lookup(bs, sub.block) {
                    Some(b) => seq![(3u8, b)],
                    None => Seq::<(u8, BlockView)>::empty(),
                });
            }
            k += 1;
        }
        proof {
            assert(section.subsections@.subrange(0, section.subsections@.len() as int)
                =~= section.subsections@);
            assert(ss.subrange(0, i + 1).drop_last() =~= ss.subrange(0, i as int));
            assert(ss.subrange(0, i + 1).last() == section@);
            assert(head + project_sections(ss.subrange(0, i + 1), bs) =~= before + (match block_lookup(
                bs,
                section.block,
            ) {
                Some(b) => seq![(2u8, b)],
                None => Seq::<(u8, BlockView)>::empty(),
            }) + project_subsections(section.subsections@, bs));
        }
        i += 1;
    }
    assert(sections_view(doc.sections@).subrange(0, doc.sections.len() as int) =~= sections_view(
        doc.sections@,
    ));
    out
}

/// The document with a new last section for `block_id`, without subsections.
pub open spec fn with_section(d: DocumentView, block_id: u128) -> DocumentView {
    DocumentView {
        sections: d.sections.push(SectionView { block: block_id, subsections: Seq::empty() }),
        ..d
    }
}

/// Append a top-level section to a document. The block's presence in the heap is the
/// caller's concern.
pub fn append_section(doc: Document, block_id: u128) -> (r: Document)
    ensures
        r@ == with_section(doc@, block_id),
{
    let mut doc = doc;
    let ghost before = doc@;
    let s = Section { block: block_id, subsections: Vec::new() };
    assert(s@ == SectionView { block: block_id, subsections: Seq::<Subsection>::empty() });
    doc.sections.push(s);
    assert(doc@.sections =~= before.sections.push(s@));
    doc
}

/// `i` is the first section of `ss` with block `b`.
pub open spec fn is_first_section(ss: Seq<SectionView>, b: u128, i: int) -> bool {
    0 <= i < ss.len() && ss[i].block == b && forall|j: int| 0 <= j < i ==> ss[j].block != b
}

/// Position of the first section with block `b`.
pub open spec fn section_index(ss: Seq<SectionView>, b: u128) -> Option<int> {
    if exists|i: int| is_first_section(ss, b, i) {
        Some(choose|i: int| is_first_section(ss, b, i))
    } else {
        None
    }
}

/// Some section has block `b`, so a first one does.
pub proof fn lemma_first_section_exists(ss: Seq<SectionView>, b: u128, j: int)
    requires
        0 <= j < ss.len(),
        ss[j].block == b,
    ensures
        exists|i: int| is_first_section(ss, b, i),
    decreases j,
{
    if forall|k: int| 0 <= k < j ==> ss[k].block != b {
        assert(is_first_section(ss, b, j));
    } else {
        let k = choose|k: int| 0 <= k < j && ss[k].block == b;
        lemma_first_section_exists(ss, b, k);
    }
}

pub proof fn lemma_section_index_found(ss: Seq<SectionView>, b: u128, i: int)
    requires
        is_first_section(ss, b, i),
    ensures
        section_index(ss, b) == Some(i),
{
    let k = choose|k: int| is_first_section(ss, b, k);
    assert(is_first_section(ss, b, k));
    if k < i {
        assert(ss[k].block != b);
    }
    if i < k {
        assert(ss[i].block != b);
    }
}

pub proof fn lemma_section_index_absent(ss: Seq<SectionView>, b: u128)
    requires
        forall|j: int| 0 <= j < ss.len() ==> ss[j].block != b,
    ensures
        section_index(ss, b) is None,
{
    if exists|i: int| is_first_section(ss, b, i) {
        let k = choose|k: int| is_first_section(ss, b, k);
        assert(ss[k].block == b);
    }
}

fn find_section(sections: &Vec<Section>, b: u128) -> (r: Option<usize>)
    ensures
        match r {
            Some(i) => section_index(sections_view(sections@), b) == Some(i as int),
            None => section_index(sections_view(sections@), b) is None,
        },
{
    let ghost ss = sections_view(sections@);
    let mut i: usize = 0;
    while i < sections.len()
        invariant
            i <= sections.len(),
            ss == sections_view(sections@),
            forall|j: int| 0 <= j < i ==> ss[j].block != b,
        decreases sections.len() - i,
    {
        if sections[i].block == b {
            proof {
                lemma_section_index_found(ss, b, i as int);
            }
            return Some(i);
        }
        i += 1;
    }
    proof {
        lemma_section_index_absent(ss, b);
    }
    None
}

/// The document with a subsection for `sub` appended under the first section of block
/// `section_block`, when there is one.
pub open spec fn with_subsection(d: DocumentView, section_block: u128, sub: u128) -> Option<
    DocumentView,
> {
    match section_index(d.sections, section_block) {
        None => None,
        Some(i) => Some(
            DocumentView {
                sections: d.sections.update(
                    i,
                    SectionView {
                        subsections: d.sections[i].subsections.push(Subsection { block: sub }),
                        ..d.sections[i]
                    },
                ),
                ..d
            },
        ),
    }
}

pub open spec fn opt_doc_view(r: Option<Document>) -> Option<DocumentView> {
    match r {
        Some(d) => Some(d@),
        None => None,
    }
}

/// Append a subsection under the given section block. Returns `None` if the section
/// is not found.
pub fn append_subsection(doc: Document, section_block_id: u128, subsection_block_id: u128) -> (r:
    Option<Document>)
    ensures
        opt_doc_view(r) == with_subsection(doc@, section_block_id, subsection_block_id),
{
    let i = match find_section(&doc.sections, section_block_id) {
        Some(i) => i,
        None => {
            return None;
        },
    };
    let ghost before = doc@;
    let mut doc = doc;
    let mut sections = clone_sections(&doc.sections);
    let mut subs = copy_vec(&doc.sections[i].subsections);
    subs.push(Subsection { block: subsection_block_id });
    let s = Section { block: doc.sections[i].block, subsections: subs };
    sections.set(i, s);
    doc.sections = sections;
    assert(doc@.sections =~= before.sections.update(
        i as int,
        SectionView {
            subsections: before.sections[i as int].subsections.push(
                Subsection { block: subsection_block_id },
            ),
            ..before.sections[i as int]
        },
    ));
    Some(doc)
}

/// The document without its first section of block `b`, when it has one.
pub open spec fn without_section(d: DocumentView, b: u128) -> Option<DocumentView> {
    match section_index(d.sections, b) {
        None => None,
        Some(i) => Some(DocumentView { sections: d.sections.remove(i), ..d }),
    }
}

/// Remove a top-level section. Returns `None` if the section is not found.
pub fn remove_section(doc: Document, block_id: u128) -> (r: Option<Document>)
    ensures
        opt_doc_view(r) == without_section(doc@, block_id),
{
    let i = match find_section(&doc.sections, block_id) {
        Some(i) => i,
        None => {
            return None;
        },
    };
    let ghost before = doc@;
    let mut doc = doc;
    let _ = doc.sections.remove(i);
    assert(doc@.sections =~= before.sections.remove(i as int));
    Some(doc)
}

pub open spec fn section_blocks(ss: Seq<SectionView>) -> Seq<u128> {
    ss.map_values(|s: SectionView| s.block)
}

/// Two sequences hold the same elements (as sets).
pub open spec fn same_members(a: Seq<u128>, b: Seq<u128>) -> bool {
    forall|x: u128| a.contains(x) <==> b.contains(x)
}

/// `i` is the last section of `ss` with block `b`.
pub open spec fn is_last_section(ss: Seq<SectionView>, b: u128, i: int) -> bool {
    0 <= i < ss.len() && ss[i].block == b && forall|j: int| i < j < ss.len() ==> ss[j].block != b
}

/// The last section with block `b` (the one a block-keyed map of the sections keeps).
pub open spec fn last_section(ss: Seq<SectionView>, b: u128) -> SectionView {
    ss[choose|i: int| is_last_section(ss, b, i)]
}

/// The document with its sections in the requested order, when `order` names exactly
/// the blocks of the current sections, as many times as there are sections.
pub open spec fn reordered(d: DocumentView, order: Seq<u128>) -> Option<DocumentView> {
    if same_members(section_blocks(d.sections), order) && order.len() == d.sections.len() {
        Some(
            DocumentView {
                sections: order.map_values(|b: u128| last_section(d.sections, b)),
                ..d
            },
        )
    } else {
        None
    }
}

fn contains_id(v: &Vec<u128>, x: u128) -> (r: bool)
    ensures
        r == v@.contains(x),
{
    let mut i: usize = 0;
    while i < v.len()
        invariant
            i <= v.len(),
            forall|j: int| 0 <= j < i ==> v@[j] != x,
        decreases v.len() - i,
    {
        if v[i] == x {
            return true;
        }
        i += 1;
    }
    false
}

fn last_section_of(sections: &Vec<Section>, b: u128) -> (r: Option<usize>)
    ensures
        match r {
            Some(i) => is_last_section(sections_view(sections@), b, i as int),
            None => !section_blocks(sections_view(sections@)).contains(b),
        },
{
    let ghost ss = sections_view(sections@);
    let mut i = sections.len();
    while i > 0
        invariant
            i <= sections.len(),
            ss == sections_view(sections@),
            forall|j: int| i <= j < ss.len() ==> ss[j].block != b,
        decreases i,
    {
        if sections[i - 1].block == b {
            return Some(i - 1);
        }
        i -= 1;
    }
    assert(!section_blocks(ss).contains(b)) by {
        if section_blocks(ss).contains(b) {
            let k = choose|k: int| 0 <= k < section_blocks(ss).len() && section_blocks(ss)[k] == b;
            assert(ss[k].block == b);
        }
    }
    None
}

/// Reorder top-level sections. Returns `None` if `order` does not name exactly the
/// blocks of the current sections, one entry per section.
pub fn reorder_sections(doc: Document, order: Vec<u128>) -> (r: Option<Document>)
    ensures
        opt_doc_view(r) == reordered(doc@, order@),
{
    let ghost ss = sections_view(doc.sections@);
    let ghost bl = section_blocks(ss);
    let mut current: Vec<u128> = Vec::new();
    let mut i: usize = 0;
    while i < doc.sections.len()
        invariant
            i <= doc.sections.len(),
            ss == sections_view(doc.sections@),
            bl == section_blocks(ss),
            current@ == bl.subrange(0, i as int),
        decreases doc.sections.len() - i,
    {
        current.push(doc.sections[i].block);
        assert(current@ =~= bl.subrange(0, i + 1));
        i += 1;
    }
    assert(current@ =~= bl);
    if order.len() != doc.sections.len() {
        return None;
    }
    let mut k: usize = 0;
    while k < order.len()
        invariant
            k <= order.len(),
            ss == sections_view(doc.sections@),
            bl == section_blocks(ss),
            current@ == bl,
            forall|j: int| 0 <= j < k ==> bl.contains(#[trigger] order@[j]),
        decreases order.len() - k,
    {
        if !contains_id(&current, order[k]) {
            assert(!same_members(bl, order@)) by {
                assert(order@.contains(order@[k as int]));
            }
            return None;
        }
        k += 1;
    }
    let mut k: usize = 0;
    while k < current.len()
        invariant
            k <= current.len(),
            ss == sections_view(doc.sections@),
            bl == section_blocks(ss),
            current@ == bl,
            forall|j: int| 0 <= j < k ==> order@.contains(#[trigger] bl[j]),
        decreases current.len() - k,
    {
        if !contains_id(&order, current[k]) {
            assert(!same_members(bl, order@)) by {
                assert(bl.contains(bl[k as int]));
            }
            return None;
        }
        k += 1;
    }
    assert(same_members(bl, order@)) by {
        assert forall|x: u128| bl.contains(x) <==> order@.contains(x) by {
            if bl.contains(x) {
                let j = choose|j: int| 0 <= j < bl.len() && bl[j] == x;
                assert(order@.contains(bl[j]));
            }
            if order@.contains(x) {
                let j = choose|j: int| 0 <= j < order@.len() && order@[j] == x;
                assert(bl.contains(order@[j]));
            }
        }
    }
    let ghost target = order@.map_values(|b: u128| last_section(ss, b));
    let mut sections: Vec<Section> = Vec::new();
    let mut k: usize = 0;
    while k < order.len()
        invariant
            k <= order.len(),
            ss == sections_view(doc.sections@),
            bl == section_blocks(ss),
            same_members(bl, order@),
            target == order@.map_values(|b: u128| last_section(ss, b)),
            sections_view(sections@) == target.subrange(0, k as int),
        decreases order.len() - k,
    {
        let b = order[k];
        assert(bl.contains(b)) by {
            assert(order@.contains(order@[k as int]));
        }
        let j = match last_section_of(&doc.sections, b) {
            Some(j) => j,
            None => {
                proof {
                    assert(false);
                }
                return None;
            },
        };
        let s = doc.sections[j].clone();
        proof {
            let c = choose|i: int| is_last_section(ss, b, i);
            assert(is_last_section(ss, b, c));
            if c < j {
                assert(ss[j as int].block != b);
            }
            if j < c {
                assert(ss[c].block != b);
            }
        }
        let ghost before = sections@;
        sections.push(s);
        assert(sections_view(sections@) =~= sections_view(before).push(s@));
        assert(sections_view(sections@) =~= target.subrange(0, k + 1));
        k += 1;
    }
    assert(target.subrange(0, order.len() as int) =~= target);
    let mut doc = doc;
    doc.sections = sections;
    Some(doc)
}

/// What deleting a block does to a document that refers to it.
#[derive(Debug)]
pub enum RemoveBlockResult {
    /// The block was a section or subsection; the document without it.
    Updated(Document),
    /// The block was the root; the document goes.
    DeleteDocument,
}

pub enum RemoveBlockView {
    Updated(DocumentView),
    DeleteDocument,
}

pub open spec fn remove_block_view(r: Option<RemoveBlockResult>) -> Option<RemoveBlockView> {
    match r {
        Some(RemoveBlockResult::Updated(d)) => Some(RemoveBlockView::Updated(d@)),
        Some(RemoveBlockResult::DeleteDocument) => Some(RemoveBlockView::DeleteDocument),
        None => None,
    }
}

/// Subsections other than those of block `b`.
pub open spec fn subs_without(subs: Seq<Subsection>, b: u128) -> Seq<Subsection>
    decreases subs.len(),
{
    if subs.len() == 0 {
        Seq::empty()
    } else {
        subs_without(subs.drop_last(), b) + if subs.last().block == b {
            Seq::empty()
        } else {
            seq![subs.last()]
        }
    }
}

/// Sections other than those of block `b`, each without subsections of block `b`.
pub open spec fn sections_without(ss: Seq<SectionView>, b: u128) -> Seq<SectionView>
    decreases ss.len(),
{
    if ss.len() == 0 {
        Seq::empty()
    } else {
        sections_without(ss.drop_last(), b) + if ss.last().block == b {
            Seq::empty()
        } else {
            seq![SectionView { subsections: subs_without(ss.last().subsections, b), ..ss.last() }]
        }
    }
}

/// Whether a section or subsection of the document is block `b`.
pub open spec fn mentions_in_sections(ss: Seq<SectionView>, b: u128) -> bool {
    exists|i: int|
        0 <= i < ss.len() && (ss[i].block == b || exists|k: int|
            0 <= k < ss[i].subsections.len() && #[trigger] ss[i].subsections[k].block == b)
}

/// With no subsection of block `b`, filtering them out changes nothing.
pub proof fn lemma_subs_without_keeps(subs: Seq<Subsection>, b: u128)
    requires
        forall|k: int| 0 <= k < subs.len() ==> #[trigger] subs[k].block != b,
    ensures
        subs_without(subs, b) == subs,
    decreases subs.len(),
{
    if subs.len() > 0 {
        assert forall|k: int| 0 <= k < subs.drop_last().len() implies #[trigger] subs.drop_last()[k].block != b by {
            assert(subs.drop_last()[k] == subs[k]);
        }
        lemma_subs_without_keeps(subs.drop_last(), b);
        assert(subs[subs.len() - 1] == subs.last());
        assert(subs.drop_last().push(subs.last()) =~= subs);
    }
}

/// With no section or subsection of block `b`, removing it changes nothing.
pub proof fn lemma_sections_without_keeps(ss: Seq<SectionView>, b: u128)
    requires
        !mentions_in_sections(ss, b),
    ensures
        sections_without(ss, b) == ss,
    decreases ss.len(),
{
    if ss.len() > 0 {
        let d = ss.drop_last();
        assert(!mentions_in_sections(d, b)) by {
            if mentions_in_sections(d, b) {
                let i = choose|i: int|
                    0 <= i < d.len() && (d[i].block == b || exists|k: int|
                        0 <= k < d[i].subsections.len() && #[trigger] d[i].subsections[k].block == b);
                assert(d[i] == ss[i]);
                if d[i].block != b {
                    let k = choose|k: int|
                        0 <= k < d[i].subsections.len() && #[trigger] d[i].subsections[k].block == b;
                    assert(ss[i].subsections[k].block == b);
                }
            }
        }
        lemma_sections_without_keeps(d, b);
        let l = ss.last();
        assert(ss[ss.len() - 1] == l);
        assert(l.block != b);
        assert forall|k: int| 0 <= k < l.subsections.len() implies #[trigger] l.subsections[k].block != b by {
            if l.subsections[k].block == b {
                assert(ss[ss.len() - 1].subsections[k].block == b);
            }
        }
        lemma_subs_without_keeps(l.subsections, b);
        assert(SectionView { subsections: subs_without(l.subsections, b), ..l } == l);
        assert(d.push(l) =~= ss);
    }
}

/// No subsection of block `b` is left.
pub proof fn lemma_subs_without_clears(subs: Seq<Subsection>, b: u128)
    ensures
        forall|k: int| 0 <= k < subs_without(subs, b).len() ==> #[trigger] subs_without(subs, b)[k].block != b,
    decreases subs.len(),
{
    if subs.len() > 0 {
        lemma_subs_without_clears(subs.drop_last(), b);
        let r = subs_without(subs.drop_last(), b);
        assert forall|k: int| 0 <= k < subs_without(subs, b).len() implies #[trigger] subs_without(subs, b)[k].block != b by {
            if k < r.len() {
                assert(subs_without(subs, b)[k] == r[k]);
            }
        }
    }
}

/// No section or subsection of block `b` is left.
pub proof fn lemma_sections_without_clears(ss: Seq<SectionView>, b: u128)
    ensures
        !mentions_in_sections(sections_without(ss, b), b),
    decreases ss.len(),
{
    if ss.len() > 0 {
        lemma_sections_without_clears(ss.drop_last(), b);
        let r = sections_without(ss.drop_last(), b);
        let t = sections_without(ss, b);
        lemma_subs_without_clears(ss.last().subsections, b);
        if mentions_in_sections(t, b) {
            let i = choose|i: int|
                0 <= i < t.len() && (t[i].block == b || exists|k: int|
                    0 <= k < t[i].subsections.len() && #[trigger] t[i].subsections[k].block == b);
            if i < r.len() {
                assert(t[i] == r[i]);
                if t[i].block != b {
                    let k = choose|k: int|
                        0 <= k < t[i].subsections.len() && #[trigger] t[i].subsections[k].block == b;
                    assert(r[i].subsections[k].block == b);
                }
            } else {
                assert(t[i].subsections == subs_without(ss.last().subsections, b));
            }
        }
    }
}

/// Removing block `b` from a document: the document goes when `b` is its root; otherwise
/// sections of `b` (with their subsections) and subsections of `b` go; `None` when the
/// document does not refer to `b`.
pub open spec fn remove_block_spec(d: DocumentView, b: u128) -> Option<RemoveBlockView> {
    if d.root == b {
        Some(RemoveBlockView::DeleteDocument)
    } else if mentions_in_sections(d.sections, b) {
        Some(
            RemoveBlockView::Updated(DocumentView { sections: sections_without(d.sections, b), ..d }),
        )
    } else {
        None
    }
}

fn filter_subs(subs: &Vec<Subsection>, b: u128) -> (r: (Vec<Subsection>, bool))
    ensures
        r.0@ == subs_without(subs@, b),
        r.1 == exists|k: int| 0 <= k < subs@.len() && #[trigger] subs@[k].block == b,
{
    let mut out: Vec<Subsection> = Vec::new();
    let mut hit = false;
    let mut i: usize = 0;
    while i < subs.len()
        invariant
            i <= subs.len(),
            out@ == subs_without(subs@.subrange(0, i as int), b),
            hit == exists|k: int| 0 <= k < i && #[trigger] subs@[k].block == b,
        decreases subs.len() - i,
    {
        let s = subs[i];
        assert(subs@.subrange(0, i + 1).drop_last() =~= subs@.subrange(0, i as int));
        if s.block == b {
            hit = true;
            assert(out@ =~= subs_without(subs@.subrange(0, i + 1), b));
        } else {
            out.push(s);
            assert(out@ =~= subs_without(subs@.subrange(0, i + 1), b));
        }
        i += 1;
    }
    assert(subs@.subrange(0, subs.len() as int) =~= subs@);
    (out, hit)
}

/// Remove a block from a document: `DeleteDocument` when it is the root, `Updated` with
/// its sections and subsections dropped when it appears in them, `None` otherwise.
pub fn remove_block_from_document(doc: Document, block_id: u128) -> (r: Option<RemoveBlockResult>)
    ensures
        remove_block_view(r) == remove_block_spec(doc@, block_id),
{
    if doc.root == block_id {
        return Some(RemoveBlockResult::DeleteDocument);
    }
    let ghost ss = sections_view(doc.sections@);
    let mut out: Vec<Section> = Vec::new();
    let mut hit = false;
    let mut i: usize = 0;
    while i < doc.sections.len()
        invariant
            i <= doc.sections.len(),
            ss == sections_view(doc.sections@),
            sections_view(out@) == sections_without(ss.subrange(0, i as int), block_id),
            hit == mentions_in_sections(ss.subrange(0, i as int), block_id),
        decreases doc.sections.len() - i,
    {
        let section = &doc.sections[i];
        let ghost pre = ss.subrange(0, i as int);
        let ghost post = ss.subrange(0, i + 1);
        assert(post.drop_last() =~= pre);
        assert(post.last() == section@);
        let (subs, sub_hit) = filter_subs(&section.subsections, block_id);
        let ghost before = out@;
        if section.block == block_id {
            hit = true;
            assert(sections_view(out@) =~= sections_without(post, block_id));
        } else {
            let s = Section { block: section.block, subsections: subs };
            out.push(s);
            assert(sections_view(out@) =~= sections_view(before).push(s@));
            assert(sections_view(out@) =~= sections_without(post, block_id));
            if sub_hit {
                hit = true;
            }
        }
        proof {
            if mentions_in_sections(post, block_id) {
                let j = choose|j: int|
                    0 <= j < post.len() && (post[j].block == block_id || exists|k: int|
                        0 <= k < post[j].subsections.len() && #[trigger] post[j].subsections[k].block
                            == block_id);
                if j < i {
                    assert(pre[j] == post[j]);
                }
            }
            if mentions_in_sections(pre, block_id) {
                let j = choose|j: int|
                    0 <= j < pre.len() && (pre[j].block == block_id || exists|k: int|
                        0 <= k < pre[j].subsections.len() && #[trigger] pre[j].subsections[k].block
                            == block_id);
                assert(post[j] == pre[j]);
            }
            if section.block == block_id || sub_hit {
                assert(post[i as int] == section@);
            }
        }
        i += 1;
    }
    assert(ss.subrange(0, doc.sections.len() as int) =~= ss);
    if !hit {
        return None;
    }
    let mut doc = doc;
    doc.sections = out;
    Some(RemoveBlockResult::Updated(doc))
}

/// Removing a section just appended gives the document back, when the block was not
/// already a section.
pub proof fn law_remove_appended_section(d: DocumentView, b: u128)
    requires
        forall|j: int| 0 <= j < d.sections.len() ==> d.sections[j].block != b,
    ensures
        without_section(with_section(d, b), b) == Some(d),
{
    let ss = with_section(d, b).sections;
    let n = d.sections.len() as int;
    assert forall|j: int| 0 <= j < n implies ss[j].block != b by {
        assert(ss[j] == d.sections[j]);
    }
    assert(is_first_section(ss, b, n));
    lemma_section_index_found(ss, b, n);
    assert(ss.remove(n) =~= d.sections);
}

/// Reordering a document's sections to their current order changes nothing, when no
/// block is a section twice.
pub proof fn law_reorder_to_current_order(d: DocumentView)
    requires
        forall|i: int, j: int|
            0 <= i < d.sections.len() && 0 <= j < d.sections.len() && i != j ==> d.sections[i].block
                != d.sections[j].block,
    ensures
        reordered(d, section_blocks(d.sections)) == Some(d),
{
    let ss = d.sections;
    let order = section_blocks(ss);
    let out = order.map_values(|b: u128| last_section(ss, b));
    assert forall|i: int| 0 <= i < ss.len() implies out[i] == ss[i] by {
        assert(is_last_section(ss, ss[i].block, i));
        let k = choose|k: int| is_last_section(ss, ss[i].block, k);
        assert(is_last_section(ss, ss[i].block, k));
        assert(k == i);
    }
    assert(out =~= ss);
}


/// Appending a subsection to the first section of block `section_block` puts the new
/// subsection last in that section: its earlier subsections keep their positions, every
/// other section and the document's id and root are unchanged. It fails exactly when no
/// section has that block.
pub proof fn law_appended_subsection_comes_last(d: DocumentView, section_block: u128, sub: u128)
    ensures
        with_subsection(d, section_block, sub) is None <==> forall|j: int|
            0 <= j < d.sections.len() ==> d.sections[j].block != section_block,
        with_subsection(d, section_block, sub) matches Some(u) ==> exists|i: int|
            {
                &&& 0 <= i < d.sections.len()
                &&& d.sections[i].block == section_block
                &&& forall|j: int| 0 <= j < i ==> d.sections[j].block != section_block
                &&& u.id == d.id && u.root == d.root
                &&& u.sections.len() == d.sections.len()
                &&& forall|j: int| 0 <= j < d.sections.len() && j != i ==> u.sections[j] == d.sections[j]
                &&& u.sections[i].block == section_block
                &&& u.sections[i].subsections.len() == d.sections[i].subsections.len() + 1
                &&& forall|k: int|
                    0 <= k < d.sections[i].subsections.len() ==> u.sections[i].subsections[k]
                        == d.sections[i].subsections[k]
                &&& u.sections[i].subsections[d.sections[i].subsections.len() as int] == Subsection {
                    block: sub,
                }
            },
{
    if exists|j: int| 0 <= j < d.sections.len() && d.sections[j].block == section_block {
        let j = choose|j: int| 0 <= j < d.sections.len() && d.sections[j].block == section_block;
        lemma_first_section_exists(d.sections, section_block, j);
        let i = choose|i: int| is_first_section(d.sections, section_block, i);
        lemma_section_index_found(d.sections, section_block, i);
        let u = with_subsection(d, section_block, sub)->0;
        assert(u.sections[i].subsections == d.sections[i].subsections.push(Subsection { block: sub }));
    } else {
        if section_index(d.sections, section_block) is Some {
            let i = choose|i: int| is_first_section(d.sections, section_block, i);
            assert(is_first_section(d.sections, section_block, i));
        }
    }
}


// ---- the projection follows the document's reading order -----------------------------------

/// The block found for an id has that id.
proof fn lemma_lookup_has_id(bs: Seq<BlockView>, x: u128)
    ensures
        block_lookup(bs, x) matches Some(b) ==> b.id == x,
{
    if block_lookup(bs, x) is Some {
        let i = choose|i: int| crate::types::is_first_block(bs, x, i);
        assert(crate::types::is_first_block(bs, x, i));
    }
}

/// Every block a document names (root, sections, subsections) is in the heap.
pub open spec fn all_in_heap(d: DocumentView, bs: Seq<BlockView>) -> bool {
    &&& block_lookup(bs, d.root) is Some
    &&& forall|i: int| 0 <= i < d.sections.len() ==> block_lookup(bs, #[trigger] d.sections[i].block) is Some
    &&& forall|i: int, k: int|
        0 <= i < d.sections.len() && 0 <= k < d.sections[i].subsections.len() ==> block_lookup(
            bs,
            #[trigger] d.sections[i].subsections[k].block,
        ) is Some
}

/// The ids of the blocks of a projection, in order.
pub open spec fn projected_ids(p: Seq<(u8, BlockView)>) -> Seq<u128> {
    p.map_values(|e: (u8, BlockView)| e.1.id)
}

/// A section's subsections whose blocks are all in the heap project to one level-3 entry
/// each, in their declared order.
pub proof fn law_projected_subsections_in_order(subs: Seq<Subsection>, bs: Seq<BlockView>)
    requires
        forall|k: int| 0 <= k < subs.len() ==> block_lookup(bs, #[trigger] subs[k].block) is Some,
    ensures
        project_subsections(subs, bs).len() == subs.len(),
        forall|k: int|
            0 <= k < subs.len() ==> project_subsections(subs, bs)[k] == (
                3u8,
                block_lookup(bs, #[trigger] subs[k].block)->0,
            ),
    decreases subs.len(),
{
    if subs.len() > 0 {
        let d = subs.drop_last();
        assert forall|k: int| 0 <= k < d.len() implies block_lookup(bs, #[trigger] d[k].block) is Some by {
            assert(d[k] == subs[k]);
        }
        law_projected_subsections_in_order(d, bs);
        assert(block_lookup(bs, subs[subs.len() - 1].block) is Some);
        assert forall|k: int| 0 <= k < subs.len() implies project_subsections(subs, bs)[k] == (
            3u8,
            block_lookup(bs, #[trigger] subs[k].block)->0,
        ) by {
            if k < d.len() {
                assert(d[k] == subs[k]);
            }
        }
    }
}

proof fn lemma_section_entries_ids(ss: Seq<SectionView>, bs: Seq<BlockView>)
    requires
        forall|i: int| 0 <= i < ss.len() ==> block_lookup(bs, #[trigger] ss[i].block) is Some,
        forall|i: int, k: int|
            0 <= i < ss.len() && 0 <= k < ss[i].subsections.len() ==> block_lookup(
                bs,
                #[trigger] ss[i].subsections[k].block,
            ) is Some,
    ensures
        projected_ids(project_sections(ss, bs)) == crate::invariants::flat(
            ss,
            |s: SectionView| crate::invariants::section_ids(s),
        ),
    decreases ss.len(),
{
    if ss.len() > 0 {
        let d = ss.drop_last();
        let l = ss.last();
        assert(ss[ss.len() - 1] == l);
        assert forall|i: int| 0 <= i < d.len() implies block_lookup(bs, #[trigger] d[i].block) is Some by {
            assert(d[i] == ss[i]);
        }
        assert forall|i: int, k: int|
            0 <= i < d.len() && 0 <= k < d[i].subsections.len() implies block_lookup(
            bs,
            #[trigger] d[i].subsections[k].block,
        ) is Some by {
            assert(d[i] == ss[i]);
        }
        lemma_section_entries_ids(d, bs);
        assert forall|k: int| 0 <= k < l.subsections.len() implies block_lookup(bs, #[trigger] l.subsections[k].block) is Some by {
            assert(ss[ss.len() - 1].subsections[k] == l.subsections[k]);
        }
        law_projected_subsections_in_order(l.subsections, bs);
        lemma_lookup_has_id(bs, l.block);
        let b = block_lookup(bs, l.block)->0;
        let ps = project_subsections(l.subsections, bs);
        assert forall|k: int| 0 <= k < l.subsections.len() implies projected_ids(ps)[k] == l.subsections.map_values(
            |x: Subsection| x.block,
        )[k] by {
            lemma_lookup_has_id(bs, l.subsections[k].block);
        }
        assert(projected_ids(ps) =~= l.subsections.map_values(|x: Subsection| x.block));
        let head = project_sections(d, bs);
        assert(project_sections(ss, bs) == head + seq![(2u8, b)] + ps);
        assert(projected_ids(head + seq![(2u8, b)] + ps) =~= projected_ids(head) + seq![b.id]
            + projected_ids(ps));
        assert(crate::invariants::section_ids(l) =~= seq![l.block] + l.subsections.map_values(
            |x: Subsection| x.block,
        ));
        assert(crate::invariants::flat(ss, |s: SectionView| crate::invariants::section_ids(s))
            =~= crate::invariants::flat(d, |s: SectionView| crate::invariants::section_ids(s))
            + crate::invariants::section_ids(l));
    }
}

/// When every block a document names is in the heap, its projection lists them in the
/// document's reading order (root, then each section followed by its subsections),
/// the same order validation checks for repeats: one entry per position, the root
/// first at level 1.
pub proof fn law_projection_follows_hierarchy(d: DocumentView, bs: Seq<BlockView>)
    requires
        all_in_heap(d, bs),
    ensures
        projection(d, bs).len() == crate::invariants::hierarchy(d).len(),
        forall|p: int|
            0 <= p < projection(d, bs).len() ==> #[trigger] projection(d, bs)[p].1.id
                == crate::invariants::hierarchy(d)[p],
        projection(d, bs)[0] == (1u8, block_lookup(bs, d.root)->0),
{
    lemma_section_entries_ids(d.sections, bs);
    lemma_lookup_has_id(bs, d.root);
    let r = block_lookup(bs, d.root)->0;
    let ps = project_sections(d.sections, bs);
    assert(projection(d, bs) == seq![(1u8, r)] + ps);
    assert(projected_ids(seq![(1u8, r)] + ps) =~= seq![r.id] + projected_ids(ps));
    assert forall|p: int| 0 <= p < projection(d, bs).len() implies #[trigger] projection(d, bs)[p].1.id
        == crate::invariants::hierarchy(d)[p] by {
        assert(projected_ids(projection(d, bs))[p] == projection(d, bs)[p].1.id);
    }
}

} // verus!
