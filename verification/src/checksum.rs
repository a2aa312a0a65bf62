//! The canonical vault checksum.
//!
//! Canonical serialization:
//!   1. Blocks in id order, each `block:<uuid>\n<name>\n<content>\n`.
//!   2. Edges sorted by id (stable), each `edge:<uuid>\n<source>-><target>\n`.
//!   3. Documents in id order, each `doc:<uuid>\nroot:<root>\n` followed by its
//!      sections in their declared order, `section:<uuid>\n`, each followed by its
//!      subsections `sub:<uuid>\n`.
//!
//! The checksum is `sha256:` and the lowercase hexadecimal SHA-256 of that text's
//! UTF-8 bytes. Timestamps and the name index take no part in it.

use vstd::prelude::*;

use crate::ids::{format_uuid, uuid_text};
use crate::invariants::{flat, lemma_flat_around};
use crate::queries::block_ids;
use crate::text::{chars_of, extend_all, string_of};
use crate::types::{
    blocks_view, documents_view, sections_view, BlockView, DocumentView, Edge, SectionView,
    Subsection, Vault, VaultView,
};

verus! {

/// What the lowercase hexadecimal SHA-256 digest of the UTF-8 bytes of a text is.
pub uninterp spec fn sha256_hex(s: Seq<char>) -> Seq<char>;

/// `sha2::Sha256::digest(s.as_bytes())` written with `{:x}`: claimed to be
/// `sha256_hex(s)`.
#[verifier::external_body]
fn sha256_hex_of(s: &str) -> (r: String)
    ensures
        r@ == sha256_hex(s@),
{
    format!("{:x}", <sha2::Sha256 as sha2::Digest>::digest(s.as_bytes()))
}

pub open spec fn nl() -> Seq<char> {
    seq!['\n']
}

pub open spec fn block_part(b: BlockView) -> Seq<char> {
    seq!['b', 'l', 'o', 'c', 'k', ':'] + uuid_text(b.id) + nl() + b.name + nl() + b.content + nl()
}

pub open spec fn edge_part(e: Edge) -> Seq<char> {
    seq!['e', 'd', 'g', 'e', ':'] + uuid_text(e.id) + nl() + uuid_text(e.source) + seq!['-', '>']
        + uuid_text(e.target) + nl()
}

pub open spec fn sub_part(s: Subsection) -> Seq<char> {
    seq!['s', 'u', 'b', ':'] + uuid_text(s.block) + nl()
}

pub open spec fn subs_text(subs: Seq<Subsection>) -> Seq<char>
    decreases subs.len(),
{
    if subs.len() == 0 {
        Seq::empty()
    } else {
        subs_text(subs.drop_last()) + sub_part(subs.last())
    }
}

pub open spec fn section_part(s: SectionView) -> Seq<char> {
    seq!['s', 'e', 'c', 't', 'i', 'o', 'n', ':'] + uuid_text(s.block) + nl() + subs_text(
        s.subsections,
    )
}

pub open spec fn sections_text(ss: Seq<SectionView>) -> Seq<char>
    decreases ss.len(),
{
    if ss.len() == 0 {
        Seq::empty()
    } else {
        sections_text(ss.drop_last()) + section_part(ss.last())
    }
}

pub open spec fn doc_part(d: DocumentView) -> Seq<char> {
    seq!['d', 'o', 'c', ':'] + uuid_text(d.id) + nl() + seq!['r', 'o', 'o', 't', ':'] + uuid_text(
        d.root,
    ) + nl() + sections_text(d.sections)
}

pub open spec fn blocks_text(bs: Seq<BlockView>) -> Seq<char>
    decreases bs.len(),
{
    if bs.len() == 0 {
        Seq::empty()
    } else {
        blocks_text(bs.drop_last()) + block_part(bs.last())
    }
}

pub open spec fn edges_text(es: Seq<Edge>) -> Seq<char>
    decreases es.len(),
{
    if es.len() == 0 {
        Seq::empty()
    } else {
        edges_text(es.drop_last()) + edge_part(es.last())
    }
}

pub open spec fn docs_text(ds: Seq<DocumentView>) -> Seq<char>
    decreases ds.len(),
{
    if ds.len() == 0 {
        Seq::empty()
    } else {
        docs_text(ds.drop_last()) + doc_part(ds.last())
    }
}

/// Where a stable insertion puts an edge of id `id`: after every edge of id at most `id`
/// from position `i` on.
pub open spec fn insert_pos(s: Seq<Edge>, id: u128, i: int) -> int
    decreases s.len() - i,
{
    if i < 0 || i >= s.len() {
        s.len() as int
    } else if s[i].id > id {
        i
    } else {
        insert_pos(s, id, i + 1)
    }
}

/// The edges sorted by id, equal ids kept in their original order (a stable sort).
pub open spec fn sort_edges(s: Seq<Edge>) -> Seq<Edge>
    decreases s.len(),
{
    if s.len() == 0 {
        Seq::empty()
    } else {
        let sorted = sort_edges(s.drop_last());
        sorted.insert(insert_pos(sorted, s.last().id, 0), s.last())
    }
}

/// Where a stable insertion puts a position whose id is `k` among the positions `ord`
/// of `ids`: after every one, from `i` on, whose id is at most `k`.
pub open spec fn order_insert_pos(ids: Seq<u128>, ord: Seq<int>, k: u128, i: int) -> int
    decreases ord.len() - i,
{
    if i < 0 || i >= ord.len() {
        ord.len() as int
    } else if ids[ord[i]] > k {
        i
    } else {
        order_insert_pos(ids, ord, k, i + 1)
    }
}

/// The positions of `ids` in increasing id order, equal ids in their original order
/// (a stable sort of the positions by id).
pub open spec fn id_order(ids: Seq<u128>) -> Seq<int>
    decreases ids.len(),
{
    if ids.len() == 0 {
        Seq::empty()
    } else {
        let o = id_order(ids.drop_last());
        o.insert(order_insert_pos(ids, o, ids.last(), 0), ids.len() - 1)
    }
}

/// The elements of `s` at the positions `ord`, in that order.
pub open spec fn in_order<A>(s: Seq<A>, ord: Seq<int>) -> Seq<A> {
    ord.map_values(|j: int| s[j])
}

pub open spec fn document_ids(ds: Seq<DocumentView>) -> Seq<u128> {
    ds.map_values(|d: DocumentView| d.id)
}

/// The blocks sorted by id (stably), whatever order they are stored in.
pub open spec fn blocks_by_id(bs: Seq<BlockView>) -> Seq<BlockView> {
    in_order(bs, id_order(block_ids(bs)))
}

/// The documents sorted by id (stably), whatever order they are stored in.
pub open spec fn documents_by_id(ds: Seq<DocumentView>) -> Seq<DocumentView> {
    in_order(ds, id_order(document_ids(ds)))
}

/// The canonical text of a vault's source artifacts.
pub open spec fn canonical_text(v: VaultView) -> Seq<char> {
    blocks_text(blocks_by_id(v.blocks)) + edges_text(sort_edges(v.edges)) + docs_text(
        documents_by_id(v.documents),
    )
}

/// The checksum of a vault: `sha256:` and the digest of its canonical text.
pub open spec fn checksum_of(v: VaultView) -> Seq<char> {
    seq!['s', 'h', 'a', '2', '5', '6', ':'] + sha256_hex(canonical_text(v))
}

proof fn lemma_insert_pos(s: Seq<Edge>, id: u128, i: int)
    requires
        0 <= i <= s.len(),
    ensures
        i <= insert_pos(s, id, i) <= s.len(),
    decreases s.len() - i,
{
    if i < s.len() && s[i].id <= id {
        lemma_insert_pos(s, id, i + 1);
    }
}

/// The edges sorted by id, stably.
pub fn sorted_edges(edges: &Vec<Edge>) -> (r: Vec<Edge>)
    ensures
        r@ == sort_edges(edges@),
{
    let mut out: Vec<Edge> = Vec::new();
    let mut i: usize = 0;
    while i < edges.len()
        invariant
            i <= edges.len(),
            out@ == sort_edges(edges@.subrange(0, i as int)),
        decreases edges.len() - i,
    {
        let e = edges[i];
        let mut p: usize = 0;
        proof {
            lemma_insert_pos(out@, e.id, 0);
        }
        while p < out.len() && out[p].id <= e.id
            invariant
                p <= out.len(),
                insert_pos(out@, e.id, p as int) == insert_pos(out@, e.id, 0),
            decreases out.len() - p,
        {
            p += 1;
        }
        let ghost before = out@;
        out.insert(p, e);
        proof {
            lemma_literals();
            assert(edges@.subrange(0, i + 1).drop_last() =~= edges@.subrange(0, i as int));
            assert(edges@.subrange(0, i + 1).last() == e);
        }
        i += 1;
    }
    assert(edges@.subrange(0, edges.len() as int) =~= edges@);
    out
}

fn push_lit(out: &mut Vec<char>, s: &str)
    ensures
        final(out)@ == old(out)@ + s@,
{
    let v = chars_of(s);
    extend_all(out, &v);
}

fn push_uuid(out: &mut Vec<char>, u: u128)
    ensures
        final(out)@ == old(out)@ + uuid_text(u),
{
    let t = format_uuid(u);
    let v = chars_of(t.as_str());
    extend_all(out, &v);
}

fn push_text(out: &mut Vec<char>, s: &String)
    ensures
        final(out)@ == old(out)@ + s@,
{
    let v = chars_of(s.as_str());
    extend_all(out, &v);
}

proof fn lemma_literals()
    ensures
        "block:"@ == seq!['b', 'l', 'o', 'c', 'k', ':'],
        "\n"@ == nl(),
        "edge:"@ == seq!['e', 'd', 'g', 'e', ':'],
        "->"@ == seq!['-', '>'],
        "doc:"@ == seq!['d', 'o', 'c', ':'],
        "root:"@ == seq!['r', 'o', 'o', 't', ':'],
        "section:"@ == seq!['s', 'e', 'c', 't', 'i', 'o', 'n', ':'],
        "sub:"@ == seq!['s', 'u', 'b', ':'],
{
    reveal_strlit("block:");
    reveal_strlit("\n");
    reveal_strlit("edge:");
    reveal_strlit("->");
    reveal_strlit("doc:");
    reveal_strlit("root:");
    reveal_strlit("section:");
    reveal_strlit("sub:");
    assert("block:"@ =~= seq!['b', 'l', 'o', 'c', 'k', ':']);
    assert("\n"@ =~= nl());
    assert("edge:"@ =~= seq!['e', 'd', 'g', 'e', ':']);
    assert("->"@ =~= seq!['-', '>']);
    assert("doc:"@ =~= seq!['d', 'o', 'c', ':']);
    assert("root:"@ =~= seq!['r', 'o', 'o', 't', ':']);
    assert("section:"@ =~= seq!['s', 'e', 'c', 't', 'i', 'o', 'n', ':']);
    assert("sub:"@ =~= seq!['s', 'u', 'b', ':']);
}

proof fn lemma_order_insert_pos(ids: Seq<u128>, ord: Seq<int>, k: u128, i: int)
    requires
        0 <= i <= ord.len(),
    ensures
        i <= order_insert_pos(ids, ord, k, i) <= ord.len(),
    decreases ord.len() - i,
{
    if i < ord.len() && ids[ord[i]] <= k {
        lemma_order_insert_pos(ids, ord, k, i + 1);
    }
}

/// Every position `id_order` gives is a position of the sequence.
proof fn lemma_id_order_bounds(ids: Seq<u128>)
    ensures
        id_order(ids).len() == ids.len(),
        forall|k: int| 0 <= k < ids.len() ==> 0 <= #[trigger] id_order(ids)[k] < ids.len(),
    decreases ids.len(),
{
    if ids.len() > 0 {
        let o = id_order(ids.drop_last());
        lemma_id_order_bounds(ids.drop_last());
        let p = order_insert_pos(ids, o, ids.last(), 0);
        lemma_order_insert_pos(ids, o, ids.last(), 0);
        let r = o.insert(p, ids.len() - 1);
        assert forall|k: int| 0 <= k < ids.len() implies 0 <= #[trigger] r[k] < ids.len() by {
            if k < p {
                assert(r[k] == o[k]);
            } else if k > p {
                assert(r[k] == o[k - 1]);
            }
        }
    }
}

/// The positions of `ids` in id order, stably.
fn id_order_of(ids: &Vec<u128>) -> (r: Vec<usize>)
    ensures
        r@.map_values(|j: usize| j as int) == id_order(ids@),
        forall|k: int| 0 <= k < r.len() ==> #[trigger] r[k] < ids.len(),
{
    let mut out: Vec<usize> = Vec::new();
    let mut i: usize = 0;
    assert(out@.map_values(|j: usize| j as int) =~= id_order(ids@.subrange(0, 0)));
    while i < ids.len()
        invariant
            i <= ids.len(),
            out@.map_values(|j: usize| j as int) == id_order(ids@.subrange(0, i as int)),
            forall|k: int| 0 <= k < out.len() ==> #[trigger] out[k] < i,
        decreases ids.len() - i,
    {
        let ghost sub = ids@.subrange(0, i + 1);
        let ghost o = id_order(ids@.subrange(0, i as int));
        assert(sub.drop_last() =~= ids@.subrange(0, i as int));
        assert(sub.last() == ids[i as int]);
        let k = ids[i];
        let mut p: usize = 0;
        proof {
            lemma_order_insert_pos(sub, o, k, 0);
        }
        while p < out.len() && ids[out[p]] <= k
            invariant
                p <= out.len(),
                out@.map_values(|j: usize| j as int) == o,
                forall|q: int| 0 <= q < out.len() ==> #[trigger] out[q] < i,
                i < ids.len(),
                sub == ids@.subrange(0, i + 1),
                k == ids[i as int],
                order_insert_pos(sub, o, k, p as int) == order_insert_pos(sub, o, k, 0),
            decreases out.len() - p,
        {
            assert(o[p as int] == out[p as int] as int);
            assert(sub[o[p as int]] == ids[out[p as int] as int]);
            p += 1;
        }
        if p < out.len() {
            assert(o[p as int] == out[p as int] as int);
            assert(sub[o[p as int]] == ids[out[p as int] as int]);
        }
        let ghost before = out@;
        out.insert(p, i);
        proof {
            assert(out@.map_values(|j: usize| j as int) =~= o.insert(p as int, i as int));
            assert(id_order(sub) == o.insert(order_insert_pos(sub, o, k, 0), sub.len() - 1));
            assert forall|q: int| 0 <= q < out.len() implies #[trigger] out[q] < i + 1 by {
                if q < p {
                    assert(out[q] == before[q]);
                } else if q > p {
                    assert(out[q] == before[q - 1]);
                }
            }
        }
        i += 1;
    }
    assert(ids@.subrange(0, ids.len() as int) =~= ids@);
    out
}

/// The canonical text of a vault.
pub fn canonical(vault: &Vault) -> (r: Vec<char>)
    ensures
        r@ == canonical_text(vault@),
{
    let ghost bs = blocks_view(vault.blocks@);
    let mut ids: Vec<u128> = Vec::new();
    let mut i: usize = 0;
    while i < vault.blocks.len()
        invariant
            i <= vault.blocks.len(),
            bs == blocks_view(vault.blocks@),
            ids@ == block_ids(bs.subrange(0, i as int)),
        decreases vault.blocks.len() - i,
    {
        ids.push(vault.blocks[i].id);
        proof {
            assert(block_ids(bs.subrange(0, i + 1)) =~= block_ids(bs.subrange(0, i as int)).push(
                bs[i as int].id,
            ));
        }
        i += 1;
    }
    assert(bs.subrange(0, vault.blocks.len() as int) =~= bs);
    let order = id_order_of(&ids);
    let ghost ord = id_order(block_ids(bs));
    let ghost sorted = blocks_by_id(bs);
    proof {
        lemma_id_order_bounds(block_ids(bs));
        assert(order@.map_values(|j: usize| j as int) == ord);
    }
    let mut out: Vec<char> = Vec::new();
    let mut i: usize = 0;
    while i < order.len()
        invariant
            i <= order.len(),
            order.len() == ord.len(),
            bs == blocks_view(vault.blocks@),
            ord == id_order(block_ids(bs)),
            sorted == blocks_by_id(bs),
            order@.map_values(|j: usize| j as int) == ord,
            forall|k: int| 0 <= k < order.len() ==> #[trigger] order[k] < vault.blocks.len(),
            out@ == blocks_text(sorted.subrange(0, i as int)),
        decreases order.len() - i,
    {
        let b = &vault.blocks[order[i]];
        let ghost before = out@;
        push_lit(&mut out, "block:");
        push_uuid(&mut out, b.id);
        push_lit(&mut out, "\n");
        push_text(&mut out, &b.name);
        push_lit(&mut out, "\n");
        push_text(&mut out, &b.content);
        push_lit(&mut out, "\n");
        proof {
            lemma_literals();
            assert(ord[i as int] == order[i as int] as int);
            assert(sorted[i as int] == bs[ord[i as int]]);
            assert(sorted.subrange(0, i + 1).drop_last() =~= sorted.subrange(0, i as int));
            assert(sorted.subrange(0, i + 1).last() == b@);
            assert(out@ =~= before + block_part(b@));
        }
        i += 1;
    }
    assert(sorted.subrange(0, order.len() as int) =~= sorted);
    let ghost after_blocks = out@;
    let edges = sorted_edges(&vault.graph.edges);
    let mut i: usize = 0;
    while i < edges.len()
        invariant
            i <= edges.len(),
            out@ == after_blocks + edges_text(edges@.subrange(0, i as int)),
        decreases edges.len() - i,
    {
        let e = edges[i];
        let ghost before = out@;
        push_lit(&mut out, "edge:");
        push_uuid(&mut out, e.id);
        push_lit(&mut out, "\n");
        push_uuid(&mut out, e.source);
        push_lit(&mut out, "->");
        push_uuid(&mut out, e.target);
        push_lit(&mut out, "\n");
        proof {
            lemma_literals();
            assert(edges@.subrange(0, i + 1).drop_last() =~= edges@.subrange(0, i as int));
            assert(edges@.subrange(0, i + 1).last() == e);
            assert(out@ =~= before + edge_part(e));
        }
        i += 1;
    }
    assert(edges@.subrange(0, edges.len() as int) =~= edges@);
    let ghost after_edges = out@;
    let ghost ds = documents_view(vault.documents@);
    let mut dids: Vec<u128> = Vec::new();
    let mut i: usize = 0;
    while i < vault.documents.len()
        invariant
            i <= vault.documents.len(),
            ds == documents_view(vault.documents@),
            dids@ == document_ids(ds.subrange(0, i as int)),
        decreases vault.documents.len() - i,
    {
        dids.push(vault.documents[i].id);
        proof {
            assert(document_ids(ds.subrange(0, i + 1)) =~= document_ids(ds.subrange(0, i as int)).push(
                ds[i as int].id,
            ));
        }
        i += 1;
    }
    assert(ds.subrange(0, vault.documents.len() as int) =~= ds);
    let dorder = id_order_of(&dids);
    let ghost dord = id_order(document_ids(ds));
    let ghost dsorted = documents_by_id(ds);
    proof {
        lemma_id_order_bounds(document_ids(ds));
        assert(dorder@.map_values(|j: usize| j as int) == dord);
    }
    let mut i: usize = 0;
    while i < dorder.len()
        invariant
            i <= dorder.len(),
            dorder.len() == dord.len(),
            ds == documents_view(vault.documents@),
            dord == id_order(document_ids(ds)),
            dsorted == documents_by_id(ds),
            dorder@.map_values(|j: usize| j as int) == dord,
            forall|k: int| 0 <= k < dorder.len() ==> #[trigger] dorder[k] < vault.documents.len(),
            out@ == after_edges + docs_text(dsorted.subrange(0, i as int)),
        decreases dorder.len() - i,
    {
        let d = &vault.documents[dorder[i]];
        let ghost before = out@;
        push_lit(&mut out, "doc:");
        push_uuid(&mut out, d.id);
        push_lit(&mut out, "\n");
        push_lit(&mut out, "root:");
        push_uuid(&mut out, d.root);
        push_lit(&mut out, "\n");
        let ghost head = out@;
        let ghost ss = sections_view(d.sections@);
        let mut k: usize = 0;
        while k < d.sections.len()
            invariant
                k <= d.sections.len(),
                ss == sections_view(d.sections@),
                out@ == head + sections_text(ss.subrange(0, k as int)),
            decreases d.sections.len() - k,
        {
            let s = &d.sections[k];
            let ghost sbefore = out@;
            push_lit(&mut out, "section:");
            push_uuid(&mut out, s.block);
            push_lit(&mut out, "\n");
            let ghost shead = out@;
            let mut m: usize = 0;
            while m < s.subsections.len()
                invariant
                    m <= s.subsections.len(),
                    out@ == shead + subs_text(s.subsections@.subrange(0, m as int)),
                decreases s.subsections.len() - m,
            {
                let sub = s.subsections[m];
                let ghost mbefore = out@;
                push_lit(&mut out, "sub:");
                push_uuid(&mut out, sub.block);
                push_lit(&mut out, "\n");
                proof {
                    lemma_literals();
                    assert(s.subsections@.subrange(0, m + 1).drop_last() =~= s.subsections@.subrange(
                        0,
                        m as int,
                    ));
                    assert(s.subsections@.subrange(0, m + 1).last() == sub);
                    assert(out@ =~= mbefore + sub_part(sub));
                }
                m += 1;
            }
            proof {
                lemma_literals();
                assert(s.subsections@.subrange(0, s.subsections.len() as int) =~= s.subsections@);
                assert(ss.subrange(0, k + 1).drop_last() =~= ss.subrange(0, k as int));
                assert(ss.subrange(0, k + 1).last() == s@);
                assert(out@ =~= sbefore + section_part(s@));
            }
            k += 1;
        }
        proof {
            lemma_literals();
            assert(ss.subrange(0, d.sections.len() as int) =~= ss);
            assert(dord[i as int] == dorder[i as int] as int);
            assert(dsorted[i as int] == ds[dord[i as int]]);
            assert(dsorted.subrange(0, i + 1).drop_last() =~= dsorted.subrange(0, i as int));
            assert(dsorted.subrange(0, i + 1).last() == d@);
            assert(out@ =~= before + doc_part(d@));
        }
        i += 1;
    }
    assert(dsorted.subrange(0, dorder.len() as int) =~= dsorted);
    out
}

/// Compute the canonical SHA-256 checksum of a vault's source artifacts (`sha256:<hex>`).
pub fn compute(vault: &Vault) -> (r: String)
    ensures
        r@ == checksum_of(vault@),
{
    let text = string_of(&canonical(vault));
    let hex = sha256_hex_of(text.as_str());
    let mut out: Vec<char> = chars_of("sha256:");
    proof {
        reveal_strlit("sha256:");
    }
    let hv = chars_of(hex.as_str());
    extend_all(&mut out, &hv);
    assert(out@ =~= checksum_of(vault@));
    string_of(&out)
}

/// Whether the vault's source artifacts no longer match the checksum stored in the
/// manifest. A load-time check for edits made outside the application.
pub fn is_drifted(vault: &Vault) -> (r: bool)
    ensures
        r == (checksum_of(vault@) != vault@.manifest.checksum),
{
    let c = compute(vault);
    !(c == vault.manifest.checksum)
}

// ---- the edge order does not matter ---------------------------------------------------------

/// No two edges share an id.
pub open spec fn edge_ids_unique(s: Seq<Edge>) -> bool {
    forall|i: int, j: int| 0 <= i < s.len() && 0 <= j < s.len() && i != j ==> s[i].id != s[j].id
}

pub open spec fn edges_sorted_le(s: Seq<Edge>) -> bool {
    forall|i: int, j: int| 0 <= i < j < s.len() ==> s[i].id <= s[j].id
}

/// A total order on edges: by id, then source, then target.
pub open spec fn edge_leq(a: Edge, b: Edge) -> bool {
    a.id < b.id || (a.id == b.id && (a.source < b.source || (a.source == b.source && a.target
        <= b.target)))
}

proof fn lemma_edge_leq_total()
    ensures
        vstd::relations::total_ordering(|a: Edge, b: Edge| edge_leq(a, b)),
{
    let r = |a: Edge, b: Edge| edge_leq(a, b);
    assert(vstd::relations::reflexive(r));
    assert(vstd::relations::antisymmetric(r));
    assert(vstd::relations::transitive(r));
    assert(vstd::relations::strongly_connected(r));
}

proof fn lemma_insert_pos_split(s: Seq<Edge>, id: u128, i: int)
    requires
        0 <= i <= s.len(),
    ensures
        forall|k: int| i <= k < insert_pos(s, id, i) ==> s[k].id <= id,
        insert_pos(s, id, i) < s.len() ==> s[insert_pos(s, id, i)].id > id,
    decreases s.len() - i,
{
    if i < s.len() && s[i].id <= id {
        lemma_insert_pos_split(s, id, i + 1);
    }
}

proof fn lemma_sort_edges_sorted(s: Seq<Edge>)
    ensures
        edges_sorted_le(sort_edges(s)),
        sort_edges(s).len() == s.len(),
    decreases s.len(),
{
    if s.len() > 0 {
        let t = sort_edges(s.drop_last());
        lemma_sort_edges_sorted(s.drop_last());
        let e = s.last();
        let p = insert_pos(t, e.id, 0);
        lemma_insert_pos(t, e.id, 0);
        lemma_insert_pos_split(t, e.id, 0);
        let r = t.insert(p, e);
        assert forall|i: int, j: int| 0 <= i < j < r.len() implies r[i].id <= r[j].id by {
            if j < p {
            } else if j == p {
                assert(r[i] == t[i]);
            } else if i < p {
                assert(r[j] == t[j - 1]);
                assert(t[i].id <= e.id);
                assert(t[p].id > e.id);
            } else if i == p {
                assert(r[j] == t[j - 1]);
                assert(t[p].id > e.id);
            } else {
                assert(r[i] == t[i - 1]);
                assert(r[j] == t[j - 1]);
            }
        }
    }
}

proof fn lemma_sort_edges_multiset(s: Seq<Edge>)
    ensures
        sort_edges(s).to_multiset() =~= s.to_multiset(),
    decreases s.len(),
{
    if s.len() > 0 {
        let t = sort_edges(s.drop_last());
        lemma_sort_edges_multiset(s.drop_last());
        lemma_sort_edges_sorted(s.drop_last());
        let e = s.last();
        let p = insert_pos(t, e.id, 0);
        lemma_insert_pos(t, e.id, 0);
        vstd::seq_lib::to_multiset_insert(t, p, e);
        vstd::seq_lib::to_multiset_build(s.drop_last(), e);
        assert(s.drop_last().push(e) =~= s);
        assert(sort_edges(s) == t.insert(p, e));
        assert(sort_edges(s).to_multiset() == t.to_multiset().insert(e));
        assert(s.to_multiset() == s.drop_last().to_multiset().insert(e));
    } else {
        assert(s =~= Seq::<Edge>::empty());
    }
}

/// Sorting edges with distinct ids gives them in the total edge order.
proof fn lemma_sort_edges_ordered(s: Seq<Edge>)
    requires
        edge_ids_unique(s),
    ensures
        vstd::relations::sorted_by(sort_edges(s), |a: Edge, b: Edge| edge_leq(a, b)),
{
    broadcast use vstd::seq_lib::to_multiset_contains;

    let t = sort_edges(s);
    lemma_sort_edges_sorted(s);
    lemma_sort_edges_multiset(s);
    assert forall|i: int, j: int| 0 <= i < j < t.len() implies #[trigger] edge_leq(t[i], t[j]) by {
        if t[i].id == t[j].id {
            assert(t.to_multiset().count(t[i]) > 0);
            assert(t.to_multiset().count(t[j]) > 0);
            assert(s.contains(t[i]));
            assert(s.contains(t[j]));
            let p = choose|p: int| 0 <= p < s.len() && s[p] == t[i];
            let q = choose|q: int| 0 <= q < s.len() && s[q] == t[j];
            if p != q {
                assert(s[p].id != s[q].id);
            }
        }
    }
}

/// Two lists of edges with distinct ids and the same elements sort to the same list.
pub proof fn lemma_sort_edges_same(x: Seq<Edge>, y: Seq<Edge>)
    requires
        edge_ids_unique(x),
        edge_ids_unique(y),
        x.to_multiset() =~= y.to_multiset(),
    ensures
        sort_edges(x) == sort_edges(y),
{
    lemma_sort_edges_ordered(x);
    lemma_sort_edges_ordered(y);
    lemma_sort_edges_multiset(x);
    lemma_sort_edges_multiset(y);
    lemma_edge_leq_total();
    vstd::seq_lib::lemma_sorted_unique(sort_edges(x), sort_edges(y), |a: Edge, b: Edge| edge_leq(a, b));
}

/// Blocks that agree on id, name and content, position by position.
pub open spec fn same_sources(a: Seq<BlockView>, b: Seq<BlockView>) -> bool {
    &&& a.len() == b.len()
    &&& forall|i: int|
        0 <= i < a.len() ==> a[i].id == b[i].id && a[i].name == b[i].name && a[i].content
            == b[i].content
}

proof fn lemma_blocks_text_sources(a: Seq<BlockView>, b: Seq<BlockView>)
    requires
        same_sources(a, b),
    ensures
        blocks_text(a) == blocks_text(b),
    decreases a.len(),
{
    if a.len() > 0 {
        lemma_blocks_text_sources(a.drop_last(), b.drop_last());
        assert(block_part(a.last()) == block_part(b.last()));
    }
}

/// The checksum covers the source artifacts only: block timestamps, the name index and
/// the manifest take no part in it.
pub proof fn law_checksum_ignores_timestamps(v: VaultView, w: VaultView)
    requires
        same_sources(v.blocks, w.blocks),
        v.edges == w.edges,
        v.documents == w.documents,
    ensures
        checksum_of(v) == checksum_of(w),
{
    assert(block_ids(v.blocks) =~= block_ids(w.blocks));
    let o = id_order(block_ids(v.blocks));
    lemma_id_order_bounds(block_ids(v.blocks));
    assert(same_sources(blocks_by_id(v.blocks), blocks_by_id(w.blocks))) by {
        assert forall|i: int| 0 <= i < o.len() implies blocks_by_id(v.blocks)[i].id == blocks_by_id(
            w.blocks,
        )[i].id && blocks_by_id(v.blocks)[i].name == blocks_by_id(w.blocks)[i].name
            && blocks_by_id(v.blocks)[i].content == blocks_by_id(w.blocks)[i].content by {
            assert(0 <= o[i] < v.blocks.len());
        }
    }
    lemma_blocks_text_sources(blocks_by_id(v.blocks), blocks_by_id(w.blocks));
}

/// The checksum does not depend on the order of the edges in the graph, as long as
/// edge ids are distinct.
pub proof fn law_checksum_ignores_edge_order(v: VaultView, w: VaultView)
    requires
        v.blocks == w.blocks,
        v.documents == w.documents,
        edge_ids_unique(v.edges),
        edge_ids_unique(w.edges),
        v.edges.to_multiset() =~= w.edges.to_multiset(),
    ensures
        checksum_of(v) == checksum_of(w),
{
    lemma_sort_edges_same(v.edges, w.edges);
}


// ---- the storage order does not matter ------------------------------------------------------

proof fn lemma_order_insert_pos_split(ids: Seq<u128>, ord: Seq<int>, k: u128, i: int)
    requires
        0 <= i <= ord.len(),
    ensures
        forall|j: int| i <= j < order_insert_pos(ids, ord, k, i) ==> ids[ord[j]] <= k,
        order_insert_pos(ids, ord, k, i) < ord.len() ==> ids[ord[order_insert_pos(ids, ord, k, i)]]
            > k,
    decreases ord.len() - i,
{
    if i < ord.len() && ids[ord[i]] <= k {
        lemma_order_insert_pos_split(ids, ord, k, i + 1);
    }
}

/// `id_order` lists the positions by non-decreasing id.
proof fn lemma_id_order_sorted(ids: Seq<u128>)
    ensures
        forall|i: int, j: int|
            0 <= i < j < ids.len() ==> ids[#[trigger] id_order(ids)[i]] <= ids[#[trigger] id_order(
                ids,
            )[j]],
    decreases ids.len(),
{
    lemma_id_order_bounds(ids);
    if ids.len() > 0 {
        let d = ids.drop_last();
        let o = id_order(d);
        lemma_id_order_sorted(d);
        lemma_id_order_bounds(d);
        let k = ids.last();
        let p = order_insert_pos(ids, o, k, 0);
        lemma_order_insert_pos(ids, o, k, 0);
        lemma_order_insert_pos_split(ids, o, k, 0);
        let r = o.insert(p, ids.len() - 1);
        assert(r == id_order(ids));
        assert forall|i: int, j: int| 0 <= i < j < ids.len() implies ids[r[i]] <= ids[r[j]] by {
            if j < p {
                assert(r[i] == o[i] && r[j] == o[j]);
                assert(d[o[i]] <= d[o[j]]);
            } else if j == p {
                assert(r[i] == o[i]);
            } else if i < p {
                assert(r[i] == o[i] && r[j] == o[j - 1]);
                assert(ids[o[p]] > k);
                assert(d[o[p]] <= d[o[j - 1]]);
            } else if i == p {
                assert(r[j] == o[j - 1]);
                assert(ids[o[p]] > k);
                if p < j - 1 {
                    assert(d[o[p]] <= d[o[j - 1]]);
                }
            } else {
                assert(r[i] == o[i - 1] && r[j] == o[j - 1]);
                assert(d[o[i - 1]] <= d[o[j - 1]]);
            }
        }
    }
}

/// Ids already in non-decreasing order keep every position where it is.
proof fn lemma_id_order_identity(ids: Seq<u128>)
    requires
        forall|i: int, j: int| 0 <= i < j < ids.len() ==> ids[i] <= ids[j],
    ensures
        id_order(ids) == Seq::new(ids.len(), |i: int| i),
    decreases ids.len(),
{
    if ids.len() > 0 {
        let d = ids.drop_last();
        lemma_id_order_identity(d);
        let o = id_order(d);
        let n = ids.len() as int;
        lemma_order_insert_pos(ids, o, ids.last(), 0);
        lemma_order_insert_pos_split(ids, o, ids.last(), 0);
        let p = order_insert_pos(ids, o, ids.last(), 0);
        if p < o.len() {
            assert(o[p] == p);
            assert(ids[p] <= ids[n - 1]);
        }
        assert(o.insert(p, n - 1) =~= Seq::new(ids.len(), |i: int| i));
    }
}

/// Blocks stored in id order are their own id order.
proof fn lemma_blocks_by_id_twice(bs: Seq<BlockView>)
    ensures
        blocks_by_id(blocks_by_id(bs)) == blocks_by_id(bs),
{
    let s = blocks_by_id(bs);
    let o = id_order(block_ids(bs));
    lemma_id_order_bounds(block_ids(bs));
    lemma_id_order_sorted(block_ids(bs));
    assert forall|i: int, j: int| 0 <= i < j < s.len() implies block_ids(s)[i] <= block_ids(s)[j] by {
        assert(block_ids(bs)[o[i]] <= block_ids(bs)[o[j]]);
    }
    lemma_id_order_identity(block_ids(s));
    assert(blocks_by_id(s) =~= s);
}

/// Documents stored in id order are their own id order.
proof fn lemma_documents_by_id_twice(ds: Seq<DocumentView>)
    ensures
        documents_by_id(documents_by_id(ds)) == documents_by_id(ds),
{
    let s = documents_by_id(ds);
    let o = id_order(document_ids(ds));
    lemma_id_order_bounds(document_ids(ds));
    lemma_id_order_sorted(document_ids(ds));
    assert forall|i: int, j: int| 0 <= i < j < s.len() implies document_ids(s)[i] <= document_ids(
        s,
    )[j] by {
        assert(document_ids(ds)[o[i]] <= document_ids(ds)[o[j]]);
    }
    lemma_id_order_identity(document_ids(s));
    assert(documents_by_id(s) =~= s);
}

/// The checksum does not depend on the order in which blocks and documents are stored:
/// the same vault with its blocks and documents put in id order has the same checksum.
pub proof fn law_checksum_ignores_storage_order(v: VaultView)
    ensures
        checksum_of(
            VaultView { blocks: blocks_by_id(v.blocks), documents: documents_by_id(v.documents), ..v },
        ) == checksum_of(v),
{
    lemma_blocks_by_id_twice(v.blocks);
    lemma_documents_by_id_twice(v.documents);
}


// ---- subsections are part of the checksum -----------------------------------------------------

/// Position `j` occurs in `o`.
pub open spec fn occurs_in(o: Seq<int>, j: int) -> bool {
    exists|m: int| 0 <= m < o.len() && #[trigger] o[m] == j
}

/// Each position appears once in `id_order`.
proof fn lemma_id_order_permutes(ids: Seq<u128>)
    ensures
        forall|a: int, b: int|
            0 <= a < b < ids.len() ==> #[trigger] id_order(ids)[a] != #[trigger] id_order(ids)[b],
        forall|j: int| 0 <= j < ids.len() ==> #[trigger] occurs_in(id_order(ids), j),
    decreases ids.len(),
{
    lemma_id_order_bounds(ids);
    if ids.len() > 0 {
        let d = ids.drop_last();
        let o = id_order(d);
        lemma_id_order_permutes(d);
        lemma_id_order_bounds(d);
        let p = order_insert_pos(ids, o, ids.last(), 0);
        lemma_order_insert_pos(ids, o, ids.last(), 0);
        let n = ids.len() - 1;
        let r = o.insert(p, n);
        assert(r == id_order(ids));
        assert forall|a: int, b: int| 0 <= a < b < ids.len() implies #[trigger] r[a] != #[trigger] r[b] by {
            if a == p {
                if b > p { assert(r[b] == o[b - 1]); }
            } else if b == p {
                assert(r[a] == o[a]);
            } else {
                let a0 = if a < p { a } else { a - 1 };
                let b0 = if b < p { b } else { b - 1 };
                assert(r[a] == o[a0] && r[b] == o[b0]);
            }
        }
        assert forall|j: int| 0 <= j < ids.len() implies #[trigger] occurs_in(r, j) by {
            if j == n {
                assert(r[p] == n);
            } else {
                assert(occurs_in(o, j));
                let m0 = choose|m: int| 0 <= m < o.len() && #[trigger] o[m] == j;
                if m0 < p {
                    assert(r[m0] == j);
                } else {
                    assert(r[m0 + 1] == j);
                }
            }
        }
    }
}

proof fn lemma_docs_text_flat(ds: Seq<DocumentView>)
    ensures
        docs_text(ds) == flat(ds, |d: DocumentView| doc_part(d)),
    decreases ds.len(),
{
    if ds.len() > 0 {
        lemma_docs_text_flat(ds.drop_last());
    }
}

proof fn lemma_sections_text_flat(ss: Seq<SectionView>)
    ensures
        sections_text(ss) == flat(ss, |s: SectionView| section_part(s)),
    decreases ss.len(),
{
    if ss.len() > 0 {
        lemma_sections_text_flat(ss.drop_last());
    }
}

/// The line a subsection contributes to the canonical text.
pub open spec fn subsection_line(x: Subsection) -> Seq<char> {
    seq!['s', 'u', 'b', ':'] + uuid_text(x.block) + seq!['\n']
}

/// Giving section `i` of `d` one more subsection inserts its line into the document's
/// text.
#[verifier::spinoff_prover]
proof fn lemma_doc_part_gains_line(d: DocumentView, i: int, x: Subsection) -> (ab: (Seq<char>, Seq<char>))
    requires
        0 <= i < d.sections.len(),
    ensures
        doc_part(d) == ab.0 + ab.1,
        doc_part(
            DocumentView {
                sections: d.sections.update(
                    i,
                    SectionView { subsections: d.sections[i].subsections.push(x), ..d.sections[i] },
                ),
                ..d
            },
        ) == ab.0 + subsection_line(x) + ab.1,
{
    let s = d.sections[i];
    let s2 = SectionView { subsections: s.subsections.push(x), ..s };
    let d2 = DocumentView { sections: d.sections.update(i, s2), ..d };
    let fs = |e: SectionView| section_part(e);
    lemma_sections_text_flat(d.sections);
    lemma_sections_text_flat(d2.sections);
    lemma_flat_around(d.sections, fs, i);
    lemma_flat_around(d2.sections, fs, i);
    assert(d2.sections.subrange(0, i) =~= d.sections.subrange(0, i));
    assert(d2.sections.subrange(i + 1, d2.sections.len() as int) =~= d.sections.subrange(
        i + 1,
        d.sections.len() as int,
    ));
    assert(s2.subsections.drop_last() =~= s.subsections);
    assert(subs_text(s2.subsections) == subs_text(s.subsections) + sub_part(x));
    assert(section_part(s2) =~= section_part(s) + subsection_line(x));
    let head = seq!['d', 'o', 'c', ':'] + uuid_text(d.id) + nl() + seq!['r', 'o', 'o', 't', ':']
        + uuid_text(d.root) + nl();
    let spre = flat(d.sections.subrange(0, i), fs);
    let spost = flat(d.sections.subrange(i + 1, d.sections.len() as int), fs);
    assert(doc_part(d) =~= (head + spre + section_part(s)) + spost);
    assert(doc_part(d2) =~= (head + spre + section_part(s)) + subsection_line(x) + spost);
    (head + spre + section_part(s), spost)
}

/// Replacing document `k` keeps the id order of the documents when its id stays.
#[verifier::spinoff_prover]
proof fn lemma_documents_by_id_update(ds: Seq<DocumentView>, k: int, d2: DocumentView) -> (m0: int)
    requires
        0 <= k < ds.len(),
        d2.id == ds[k].id,
    ensures
        0 <= m0 < ds.len(),
        documents_by_id(ds).len() == ds.len(),
        documents_by_id(ds)[m0] == ds[k],
        documents_by_id(ds.update(k, d2)) == documents_by_id(ds).update(m0, d2),
{
    assert(document_ids(ds.update(k, d2)) =~= document_ids(ds));
    let ids = document_ids(ds);
    let o = id_order(ids);
    lemma_id_order_bounds(ids);
    lemma_id_order_permutes(ids);
    assert(occurs_in(o, k));
    let m0 = choose|m: int| 0 <= m < o.len() && #[trigger] o[m] == k;
    let sv = documents_by_id(ds);
    let sw = documents_by_id(ds.update(k, d2));
    assert forall|m: int| 0 <= m < o.len() implies #[trigger] sw[m] == sv.update(m0, d2)[m] by {
        if m != m0 {
            assert(o[m] != o[m0]);
        }
    }
    assert(sw =~= sv.update(m0, d2));
    m0
}

/// A document text that gains a line makes the documents' text gain it.
#[verifier::spinoff_prover]
proof fn lemma_docs_text_gains_line(
    ds: Seq<DocumentView>,
    m0: int,
    d2: DocumentView,
    a: Seq<char>,
    b: Seq<char>,
    line: Seq<char>,
) -> (pq: (Seq<char>, Seq<char>))
    requires
        0 <= m0 < ds.len(),
        doc_part(ds[m0]) == a + b,
        doc_part(d2) == a + line + b,
    ensures
        docs_text(ds) == pq.0 + pq.1,
        docs_text(ds.update(m0, d2)) == pq.0 + line + pq.1,
{
    let fd = |e: DocumentView| doc_part(e);
    let dw = ds.update(m0, d2);
    lemma_docs_text_flat(ds);
    lemma_docs_text_flat(dw);
    lemma_flat_around(ds, fd, m0);
    lemma_flat_around(dw, fd, m0);
    assert(dw.subrange(0, m0) =~= ds.subrange(0, m0));
    assert(dw.subrange(m0 + 1, dw.len() as int) =~= ds.subrange(m0 + 1, ds.len() as int));
    let dpre = flat(ds.subrange(0, m0), fd);
    let dpost = flat(ds.subrange(m0 + 1, ds.len() as int), fd);
    assert(docs_text(ds) =~= (dpre + a) + (b + dpost));
    assert(docs_text(dw) =~= (dpre + a) + line + (b + dpost));
    (dpre + a, b + dpost)
}

/// The canonical text lists every subsection: giving a section one more subsection
/// inserts one line `sub:<uuid>` into the vault's canonical text and changes nothing
/// else, so the checksum covers what subsections a document has.
pub proof fn law_canonical_text_lists_subsections(v: VaultView, k: int, i: int, x: Subsection)
    requires
        0 <= k < v.documents.len(),
        0 <= i < v.documents[k].sections.len(),
    ensures
        ({
            let d = v.documents[k];
            let s = d.sections[i];
            let w = VaultView {
                documents: v.documents.update(
                    k,
                    DocumentView {
                        sections: d.sections.update(i, SectionView { subsections: s.subsections.push(x), ..s }),
                        ..d
                    },
                ),
                ..v
            };
            exists|pre: Seq<char>, post: Seq<char>|
                canonical_text(v) == pre + post && canonical_text(w) == pre + (seq!['s', 'u', 'b', ':']
                    + uuid_text(x.block) + seq!['\n']) + post
        }),
{
    let d = v.documents[k];
    let s = d.sections[i];
    let d2 = DocumentView {
        sections: d.sections.update(i, SectionView { subsections: s.subsections.push(x), ..s }),
        ..d
    };
    let w = VaultView { documents: v.documents.update(k, d2), ..v };
    let (a, b) = lemma_doc_part_gains_line(d, i, x);
    let m0 = lemma_documents_by_id_update(v.documents, k, d2);
    let sv = documents_by_id(v.documents);
    let (p, q) = lemma_docs_text_gains_line(sv, m0, d2, a, b, subsection_line(x));
    let front = blocks_text(blocks_by_id(v.blocks)) + edges_text(sort_edges(v.edges));
    assert(canonical_text(v) =~= (front + p) + q);
    assert(canonical_text(w) =~= (front + p) + subsection_line(x) + q);
}
} // verus!
