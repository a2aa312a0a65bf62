//! Reading back a written block file: the parse of a serialized block is the block.
//!
//! The proof follows the file from the outside in: the comment delimiters are found
//! where they were written, the metadata text splits into the four lines written, each
//! line into its key and value, and the body after the comment is the content.

use vstd::prelude::*;

use crate::format::{
    body_after_header, comment_close, comment_open, crlf, field_of, fields_in, key_created,
    key_id, key_modified, key_name, key_separator, lf, lf_normalized, metadata_fields,
    metadata_line, metadata_lines, metadata_split, parse_block_spec, round_trips,
    serialized,
};
use crate::ids::{digit_index, nibble, pow16, uuid_parse, uuid_text};
use crate::text::{
    assoc_build, assoc_get, assoc_has, contains, find_from, is_first_match_from, is_ws,
    keys_unique, lemma_first_match_unique, lemma_no_match_join, lemma_line_end, lemma_no_match, line_end, lines,
    lines_from, matches_at, starts_with, strip_leading, trim, trim_end, trim_start,
};
use crate::time::{stamp_char, stamp_shaped, timestamp_parse};
use crate::types::BlockView;

verus! {

/// A character no delimiter of the file uses: not whitespace and not `'>'`.
pub open spec fn plain(c: char) -> bool {
    !is_ws(c) && c != '>'
}

/// Every character of `t` is plain.
pub open spec fn all_plain(t: Seq<char>) -> bool {
    forall|k: int| 0 <= k < t.len() ==> plain(#[trigger] t[k])
}

/// No character of `t` is `c`.
pub open spec fn lacks(t: Seq<char>, c: char) -> bool {
    forall|k: int| 0 <= k < t.len() ==> #[trigger] t[k] != c
}

// ---- text facts ---------------------------------------------------------------------

/// Without CRLF there is nothing to normalize.
proof fn lemma_no_crlf_normalized(s: Seq<char>)
    requires
        !contains(s, crlf()),
    ensures
        lf_normalized(s) == s,
{
    lemma_no_match(s, crlf(), 0);
    assert(s.subrange(0, s.len() as int) =~= s);
}

/// A text without `'\r'` or without `'\n'` has no CRLF.
proof fn lemma_no_crlf_lacking(t: Seq<char>, c: char)
    requires
        c == '\r' || c == '\n',
        lacks(t, c),
    ensures
        !contains(t, crlf()),
{
    assert forall|j: int| !matches_at(t, crlf(), j) by {
        if matches_at(t, crlf(), j) {
            assert(t.subrange(j, j + 2)[0] == t[j]);
            assert(t.subrange(j, j + 2)[1] == t[j + 1]);
        }
    }
}

/// Two texts without CRLF joined without a `'\r'` before a `'\n'`.
proof fn lemma_no_crlf_join(a: Seq<char>, b: Seq<char>)
    requires
        !contains(a, crlf()),
        !contains(b, crlf()),
        a.len() == 0 || b.len() == 0 || a.last() != '\r' || b[0] != '\n',
    ensures
        !contains(a + b, crlf()),
{
    assert forall|j: int|
        0 <= j < a.len() && a.len() < j + 2 <= a.len() + b.len() implies !matches_at(
        a + b,
        crlf(),
        j,
    ) by {
        if matches_at(a + b, crlf(), j) {
            assert((a + b).subrange(j, j + 2)[0] == (a + b)[j]);
            assert((a + b).subrange(j, j + 2)[1] == (a + b)[j + 1]);
        }
    }
    lemma_no_match_join(a, b, crlf());
}

/// A text without `'>'` has no `-->`.
proof fn lemma_no_arrow_lacking(t: Seq<char>)
    requires
        lacks(t, '>'),
    ensures
        !contains(t, comment_close()),
{
    assert forall|j: int| !matches_at(t, comment_close(), j) by {
        if matches_at(t, comment_close(), j) {
            assert(t.subrange(j, j + 3)[2] == t[j + 2]);
        }
    }
}

/// Two texts without `-->` joined where no `-->` can cross: after a line break, or
/// after two characters that are not `'-'`.
proof fn lemma_no_arrow_join(a: Seq<char>, b: Seq<char>)
    requires
        !contains(a, comment_close()),
        !contains(b, comment_close()),
        (b.len() > 0 && b[0] == '\n') || (forall|j: int|
            0 <= j < a.len() && a.len() - 2 <= j ==> #[trigger] a[j] != '-'),
    ensures
        !contains(a + b, comment_close()),
{
    assert forall|j: int|
        0 <= j < a.len() && a.len() < j + 3 <= a.len() + b.len() implies !matches_at(
        a + b,
        comment_close(),
        j,
    ) by {
        if matches_at(a + b, comment_close(), j) {
            let m = (a + b).subrange(j, j + 3);
            assert(m[0] == (a + b)[j]);
            assert(m[1] == (a + b)[j + 1]);
            assert(m[2] == (a + b)[j + 2]);
            assert(a[j] == (a + b)[j]);
        }
    }
    lemma_no_match_join(a, b, comment_close());
}

proof fn lemma_trim_start_len(s: Seq<char>)
    ensures
        trim_start(s).len() <= s.len(),
    decreases s.len(),
{
    if s.len() > 0 && is_ws(s[0]) {
        lemma_trim_start_len(s.drop_first());
    }
}

proof fn lemma_trim_end_len(s: Seq<char>)
    ensures
        trim_end(s).len() <= s.len(),
    decreases s.len(),
{
    if s.len() > 0 && is_ws(s.last()) {
        lemma_trim_end_len(s.drop_last());
    }
}

/// What `trim` would remove is not there.
proof fn lemma_trimmed_ends(s: Seq<char>)
    requires
        trim(s) == s,
        s.len() > 0,
    ensures
        !is_ws(s[0]),
        !is_ws(s.last()),
{
    lemma_trim_start_len(s);
    lemma_trim_end_len(trim_start(s));
    if is_ws(s[0]) {
        lemma_trim_start_len(s.drop_first());
        assert(trim_start(s) == trim_start(s.drop_first()));
    }
    assert(trim_start(s) == s);
    if is_ws(s.last()) {
        lemma_trim_end_len(s.drop_last());
        assert(trim_end(s) == trim_end(s.drop_last()));
    }
}

/// A text whose ends are not whitespace is its own trim.
proof fn lemma_trim_fixed(s: Seq<char>)
    requires
        s.len() > 0 ==> !is_ws(s[0]) && !is_ws(s.last()),
    ensures
        trim(s) == s,
{
}

/// One space before a text is trimmed away with the text's own whitespace.
proof fn lemma_trim_space(s: Seq<char>)
    ensures
        trim(seq![' '] + s) == trim(s),
{
    assert((seq![' '] + s).drop_first() =~= s);
}

/// The lines of `p + q` from inside `q` are those of `q`.
proof fn lemma_line_end_shift(p: Seq<char>, q: Seq<char>, i: int)
    requires
        0 <= i <= q.len(),
    ensures
        line_end(p + q, p.len() + i) == p.len() + line_end(q, i),
    decreases q.len() - i,
{
    if i < q.len() {
        assert((p + q)[p.len() + i] == q[i]);
        if q[i] != '\n' {
            lemma_line_end_shift(p, q, i + 1);
        }
    }
}

proof fn lemma_lines_shift(p: Seq<char>, q: Seq<char>, i: int)
    requires
        0 <= i,
    ensures
        lines_from(p + q, p.len() + i) == lines_from(q, i),
    decreases q.len() - i,
{
    if i < q.len() {
        lemma_line_end_shift(p, q, i);
        lemma_line_end(q, i);
        let e = line_end(q, i);
        assert((p + q).subrange(p.len() + i, p.len() + e) =~= q.subrange(i, e));
        if e < q.len() {
            lemma_lines_shift(p, q, e + 1);
        }
    }
}

/// A text without line breaks is one line.
proof fn lemma_lines_single(a: Seq<char>)
    requires
        a.len() > 0,
        lacks(a, '\n'),
    ensures
        lines(a) == seq![a],
{
    lemma_line_end(a, 0);
    if line_end(a, 0) < a.len() {
        assert(a[line_end(a, 0)] == '\n');
    }
    assert(a.subrange(0, a.len() as int) =~= a);
}

/// A line, a line break and the rest: the line, then the lines of the rest.
proof fn lemma_lines_cons(a: Seq<char>, r: Seq<char>)
    requires
        lacks(a, '\n'),
        a.len() == 0 || a.last() != '\r',
    ensures
        lines(a + (lf() + r)) == seq![a] + lines(r),
{
    let s = a + (lf() + r);
    lemma_line_end(s, 0);
    assert(s[a.len() as int] == '\n');
    let e = line_end(s, 0);
    if e < a.len() {
        assert(s[e] == a[e]);
    }
    if e > a.len() {
        assert(s[a.len() as int] != '\n');
    }
    assert(e == a.len());
    assert(s.subrange(0, a.len() as int) =~= a);
    assert(s =~= (a + lf()) + r);
    lemma_lines_shift(a + lf(), r, 0);
    assert(lines_from(s, e + 1) == lines(r));
}

/// The field of a metadata line.
proof fn lemma_field_of(k: Seq<char>, v: Seq<char>)
    requires
        k.len() > 0,
        forall|i: int| 0 <= i < k.len() ==> #[trigger] k[i] != ':' && !is_ws(k[i]),
        trim(v) == v,
    ensures
        field_of(metadata_line(k, v)) == Some((k, v)),
{
    let line = metadata_line(k, v);
    let n = k.len() as int;
    assert(line.subrange(n, n + 1) =~= seq![':']);
    assert forall|j: int| 0 <= j < n implies !matches_at(line, seq![':'], j) by {
        if matches_at(line, seq![':'], j) {
            assert(line.subrange(j, j + 1)[0] == line[j]);
            assert(line[j] == k[j]);
        }
    }
    assert(is_first_match_from(line, seq![':'], 0, n));
    lemma_first_match_unique(line, seq![':'], 0, n);
    assert(line.subrange(0, n) =~= k);
    lemma_trim_fixed(k);
    assert(line.subrange(n + 1, line.len() as int) =~= seq![' '] + v);
    lemma_trim_space(v);
}

// ---- the metadata lines ---------------------------------------------------------------

/// What a metadata line contributes: no line break, no CRLF, no `-->`, no `'\r'` at its
/// end, and its field.
proof fn lemma_line_facts(k: Seq<char>, v: Seq<char>)
    requires
        k.len() > 0,
        forall|i: int| 0 <= i < k.len() ==> #[trigger] k[i] != ':' && plain(k[i]),
        lacks(v, '\n'),
        !contains(v, comment_close()),
        trim(v) == v,
    ensures
        lacks(metadata_line(k, v), '\n'),
        !contains(metadata_line(k, v), crlf()),
        !contains(metadata_line(k, v), comment_close()),
        metadata_line(k, v).last() != '\r',
        field_of(metadata_line(k, v)) == Some((k, v)),
{
    let a = k + key_separator();
    let l = metadata_line(k, v);
    assert(l == a + v);
    assert forall|i: int| 0 <= i < l.len() implies #[trigger] l[i] != '\n' by {
        if i < k.len() {
            assert(l[i] == k[i]);
        } else if i >= a.len() {
            assert(l[i] == v[i - a.len()]);
        }
    }
    lemma_no_crlf_lacking(l, '\n');
    assert(lacks(a, '>')) by {
        assert forall|i: int| 0 <= i < a.len() implies #[trigger] a[i] != '>' by {
            if i < k.len() {
                assert(a[i] == k[i]);
            }
        }
    }
    lemma_no_arrow_lacking(a);
    lemma_no_arrow_join(a, v);
    if v.len() > 0 {
        lemma_trimmed_ends(v);
        assert(l.last() == v.last());
    }
    lemma_field_of(k, v);
}

/// A UUID's text: plain characters, trimmed, no `-->`.
proof fn lemma_uuid_value(u: u128)
    ensures
        uuid_text(u).len() == 36,
        all_plain(uuid_text(u)),
        lacks(uuid_text(u), '\n'),
        lacks(uuid_text(u), '>'),
        trim(uuid_text(u)) == uuid_text(u),
        !contains(uuid_text(u), comment_close()),
{
    let t = uuid_text(u);
    assert forall|k: int| 0 <= k < 36 implies plain(#[trigger] t[k]) by {
        if !(k == 8 || k == 13 || k == 18 || k == 23) {
            let x = nibble(u, digit_index(k));
            assert(0 <= x < 16) by {
                let y = u as int / pow16((31 - digit_index(k)) as nat);
                assert(y % 16 >= 0 && y % 16 < 16);
            }
        }
    }
    assert(lacks(t, '\n'));
    assert(lacks(t, '>'));
    lemma_trim_fixed(t);
    lemma_no_arrow_lacking(t);
}

/// An RFC 3339 text of the usual shape: plain characters, trimmed, no `-->`.
proof fn lemma_stamp_value(t: Seq<char>)
    requires
        stamp_shaped(t),
    ensures
        all_plain(t),
        lacks(t, '\n'),
        trim(t) == t,
        !contains(t, comment_close()),
{
    assert forall|k: int| 0 <= k < t.len() implies plain(#[trigger] t[k]) by {
        assert(stamp_char(t[k]));
    }
    assert(lacks(t, '\n'));
    assert(lacks(t, '>'));
    lemma_trim_fixed(t);
    lemma_no_arrow_lacking(t);
}

proof fn lemma_keys()
    ensures
        forall|i: int| 0 <= i < key_id().len() ==> #[trigger] key_id()[i] != ':' && plain(key_id()[i]),
        forall|i: int|
            0 <= i < key_name().len() ==> #[trigger] key_name()[i] != ':' && plain(key_name()[i]),
        forall|i: int|
            0 <= i < key_created().len() ==> #[trigger] key_created()[i] != ':' && plain(
                key_created()[i],
            ),
        forall|i: int|
            0 <= i < key_modified().len() ==> #[trigger] key_modified()[i] != ':' && plain(
                key_modified()[i],
            ),
{
}

/// A sequence of distinct keys is its own association list.
proof fn lemma_build_distinct<V>(e: Seq<(Seq<char>, V)>)
    requires
        keys_unique(e),
    ensures
        assoc_build(e) == e,
    decreases e.len(),
{
    if e.len() > 0 {
        let d = e.drop_last();
        assert(keys_unique(d));
        lemma_build_distinct(d);
        if assoc_has(d, e.last().0) {
            let i = choose|i: int| 0 <= i < d.len() && d[i].0 == e.last().0;
            assert(e[i].0 == e[e.len() - 1].0);
        }
        assert(d.push(e.last()) =~= e);
    }
}

/// The value under a key that occurs once.
proof fn lemma_get_at<V>(e: Seq<(Seq<char>, V)>, i: int)
    requires
        keys_unique(e),
        0 <= i < e.len(),
    ensures
        assoc_get(e, e[i].0) == Some(e[i].1),
{
    assert(assoc_has(e, e[i].0));
    let j = choose|j: int| 0 <= j < e.len() && e[j].0 == e[i].0;
    assert(j == i);
}

/// The fields of the four metadata lines.
#[verifier::spinoff_prover]
proof fn lemma_metadata_fields(b: BlockView)
    requires
        round_trips(b),
        stamp_shaped(crate::time::rfc3339_secs(b.created.0, b.created.1)),
        stamp_shaped(crate::time::rfc3339_secs(b.modified.0, b.modified.1)),
    ensures
        ({
            let f = metadata_fields(metadata_lines(b));
            &&& assoc_get(f, key_id()) == Some(uuid_text(b.id))
            &&& assoc_get(f, key_name()) == Some(b.name)
            &&& assoc_get(f, key_created()) == Some(
                crate::time::rfc3339_secs(b.created.0, b.created.1),
            )
            &&& assoc_get(f, key_modified()) == Some(
                crate::time::rfc3339_secs(b.modified.0, b.modified.1),
            )
        }),
{
    let u = uuid_text(b.id);
    let r1 = crate::time::rfc3339_secs(b.created.0, b.created.1);
    let r2 = crate::time::rfc3339_secs(b.modified.0, b.modified.1);
    lemma_line_pieces(b);
    let l1 = metadata_line(key_id(), u);
    let l2 = metadata_line(key_name(), b.name);
    let l3 = metadata_line(key_created(), r1);
    let l4 = metadata_line(key_modified(), r2);
    let ls = seq![l1, l2, l3, l4];
    assert(lines(metadata_lines(b)) == ls);
    let e = seq![(key_id(), u), (key_name(), b.name), (key_created(), r1), (key_modified(), r2)];
    assert(fields_in(ls.drop_first().drop_first().drop_first().drop_first()) =~= Seq::<
        (Seq<char>, Seq<char>),
    >::empty());
    assert(ls.drop_first().drop_first().drop_first() =~= seq![l4]);
    assert(fields_in(seq![l4]) =~= seq![(key_modified(), r2)]) by {
        assert(seq![l4].drop_first() =~= Seq::<Seq<char>>::empty());
    }
    assert(ls.drop_first().drop_first() =~= seq![l3, l4]);
    assert(fields_in(seq![l3, l4]) =~= seq![(key_created(), r1), (key_modified(), r2)]) by {
        assert(seq![l3, l4].drop_first() =~= seq![l4]);
    }
    assert(ls.drop_first() =~= seq![l2, l3, l4]);
    assert(fields_in(seq![l2, l3, l4]) =~= seq![
        (key_name(), b.name),
        (key_created(), r1),
        (key_modified(), r2),
    ]) by {
        assert(seq![l2, l3, l4].drop_first() =~= seq![l3, l4]);
    }
    assert(fields_in(ls) =~= e);
    assert(keys_unique(e)) by {
        assert forall|i: int, j: int| 0 <= i < e.len() && 0 <= j < e.len() && i != j implies e[i].0
            != e[j].0 by {
            assert(e[i].0.len() != e[j].0.len());
        }
    }
    lemma_build_distinct(e);
    lemma_get_at(e, 0);
    lemma_get_at(e, 1);
    lemma_get_at(e, 2);
    lemma_get_at(e, 3);
}

/// The metadata lines split into the four lines written, with no CRLF or `-->` among
/// them, and with ends that are not whitespace.
#[verifier::spinoff_prover]
#[verifier::rlimit(40)]
proof fn lemma_line_pieces(b: BlockView)
    requires
        round_trips(b),
        stamp_shaped(crate::time::rfc3339_secs(b.created.0, b.created.1)),
        stamp_shaped(crate::time::rfc3339_secs(b.modified.0, b.modified.1)),
    ensures
        ({
            let x = metadata_lines(b);
            &&& lines(x) == seq![
                metadata_line(key_id(), uuid_text(b.id)),
                metadata_line(key_name(), b.name),
                metadata_line(key_created(), crate::time::rfc3339_secs(b.created.0, b.created.1)),
                metadata_line(key_modified(), crate::time::rfc3339_secs(b.modified.0, b.modified.1)),
            ]
            &&& field_of(metadata_line(key_id(), uuid_text(b.id))) == Some((key_id(), uuid_text(b.id)))
            &&& field_of(metadata_line(key_name(), b.name)) == Some((key_name(), b.name))
            &&& field_of(metadata_line(key_created(), crate::time::rfc3339_secs(b.created.0, b.created.1)))
                == Some((key_created(), crate::time::rfc3339_secs(b.created.0, b.created.1)))
            &&& field_of(metadata_line(key_modified(), crate::time::rfc3339_secs(b.modified.0, b.modified.1)))
                == Some((key_modified(), crate::time::rfc3339_secs(b.modified.0, b.modified.1)))
            &&& !contains(x, crlf())
            &&& !contains(x, comment_close())
            &&& x.len() > 0
            &&& !is_ws(x[0])
            &&& !is_ws(x.last())
        }),
{
    let u = uuid_text(b.id);
    let r1 = crate::time::rfc3339_secs(b.created.0, b.created.1);
    let r2 = crate::time::rfc3339_secs(b.modified.0, b.modified.1);
    lemma_keys();
    lemma_uuid_value(b.id);
    lemma_stamp_value(r1);
    lemma_stamp_value(r2);
    assert(lacks(b.name, '\n')) by {
        assert forall|k: int| 0 <= k < b.name.len() implies #[trigger] b.name[k] != '\n' by {
            if b.name[k] == '\n' {
                assert(b.name.contains(b.name[k]));
            }
        }
    }
    let l1 = metadata_line(key_id(), u);
    let l2 = metadata_line(key_name(), b.name);
    let l3 = metadata_line(key_created(), r1);
    let l4 = metadata_line(key_modified(), r2);
    lemma_line_facts(key_id(), u);
    lemma_line_facts(key_name(), b.name);
    lemma_line_facts(key_created(), r1);
    lemma_line_facts(key_modified(), r2);
    let y3 = lf() + l4;
    let z3 = l3 + y3;
    let y2 = lf() + z3;
    let z2 = l2 + y2;
    let y1 = lf() + z2;
    let x = l1 + y1;
    assert(x == metadata_lines(b));
    // the lines
    assert(l4.len() > 0);
    lemma_lines_single(l4);
    lemma_lines_cons(l3, l4);
    lemma_lines_cons(l2, z3);
    lemma_lines_cons(l1, z2);
    assert(lines(x) =~= seq![l1, l2, l3, l4]);
    // no CRLF
    assert(!contains(lf(), crlf())) by {
        lemma_no_crlf_lacking(lf(), '\r');
    }
    lemma_no_crlf_join(lf(), l4);
    lemma_no_crlf_join(l3, y3);
    lemma_no_crlf_join(lf(), z3);
    lemma_no_crlf_join(l2, y2);
    lemma_no_crlf_join(lf(), z2);
    lemma_no_crlf_join(l1, y1);
    // no -->
    assert(!contains(lf(), comment_close())) by {
        lemma_no_arrow_lacking(lf());
    }
    lemma_no_arrow_join(lf(), l4);
    lemma_no_arrow_join(l3, y3);
    lemma_no_arrow_join(lf(), z3);
    lemma_no_arrow_join(l2, y2);
    lemma_no_arrow_join(lf(), z2);
    lemma_no_arrow_join(l1, y1);
    // the ends
    assert(x[0] == key_id()[0]);
    assert(x.last() == r2.last());
    assert(plain(r2[19]));
}

// ---- the whole file -------------------------------------------------------------------

/// The file around metadata lines `x` and a content `c` that holds no CRLF.
pub open spec fn framed(x: Seq<char>, c: Seq<char>) -> Seq<char> {
    let header = comment_open() + lf() + x + lf() + comment_close() + lf();
    if c.len() > 0 {
        header + (lf() + c)
    } else {
        header
    }
}

/// What follows the metadata lines.
pub open spec fn frame_tail(c: Seq<char>) -> Seq<char> {
    lf() + comment_close() + lf() + (if c.len() > 0 {
        lf() + c
    } else {
        Seq::empty()
    })
}

proof fn lemma_framed_parts(x: Seq<char>, c: Seq<char>)
    ensures
        framed(x, c) == comment_open() + (lf() + x + frame_tail(c)),
{
    assert(framed(x, c) =~= comment_open() + (lf() + x + frame_tail(c)));
}

/// The framed file holds no CRLF.
proof fn lemma_framed_no_crlf(x: Seq<char>, c: Seq<char>)
    requires
        !contains(x, crlf()),
        !contains(c, crlf()),
        x.len() > 0,
        x.last() != '\r',
    ensures
        !contains(framed(x, c), crlf()),
{
    let t: Seq<char> = if c.len() > 0 {
        lf() + c
    } else {
        Seq::empty()
    };
    let mid = lf() + comment_close() + lf();
    assert(frame_tail(c) == mid + t);
    lemma_no_crlf_lacking(lf(), '\r');
    lemma_no_crlf_lacking(comment_open(), '\r');
    lemma_no_crlf_lacking(mid, '\r');
    if c.len() > 0 {
        lemma_no_crlf_join(lf(), c);
    } else {
        lemma_no_crlf_lacking(t, '\r');
    }
    lemma_no_crlf_join(mid, t);
    lemma_no_crlf_join(lf(), x);
    assert((lf() + x).last() == x.last());
    lemma_no_crlf_join(lf() + x, frame_tail(c));
    lemma_no_crlf_join(comment_open(), lf() + x + frame_tail(c));
    lemma_framed_parts(x, c);
}

/// In the text after `<!--`, the first `-->` is the one after the metadata lines.
proof fn lemma_first_close(x: Seq<char>, c: Seq<char>)
    requires
        !contains(x, comment_close()),
    ensures
        find_from(lf() + x + frame_tail(c), comment_close(), 0) == Some(x.len() as int + 2),
{
    let after = lf() + x + frame_tail(c);
    let m: int = x.len() as int + 2;
    let p = lf() + x + lf();
    assert(after.subrange(0, m) =~= p);
    assert(after.subrange(m, m + 3) =~= comment_close());
    lemma_no_arrow_lacking(lf());
    lemma_no_arrow_join(lf(), x);
    lemma_no_arrow_join(lf() + x, lf());
    assert forall|j: int| 0 <= j < m implies !matches_at(after, comment_close(), j) by {
        if matches_at(after, comment_close(), j) {
            if j + 3 <= m {
                assert(after.subrange(j, j + 3) =~= p.subrange(j, j + 3));
                assert(matches_at(p, comment_close(), j));
            } else {
                assert(after[m - 1] == '\n');
                assert(after.subrange(j, j + 3)[m - 1 - j] == after[m - 1]);
            }
        }
    }
    assert(is_first_match_from(after, comment_close(), 0, m));
    lemma_first_match_unique(after, comment_close(), 0, m);
}

/// The line breaks around the metadata lines are trimmed away.
proof fn lemma_trim_framed_lines(x: Seq<char>)
    requires
        x.len() > 0,
        !is_ws(x[0]),
        !is_ws(x.last()),
    ensures
        trim(lf() + x + lf()) == x,
{
    let p = lf() + x + lf();
    let q = x + lf();
    assert(p[0] == '\n');
    assert(is_ws(p[0]));
    assert(p.drop_first() =~= q);
    assert(q[0] == x[0]);
    assert(trim_start(q) == q);
    assert(trim_start(p) == q);
    assert(q.last() == '\n');
    assert(is_ws(q.last()));
    assert(q.drop_last() =~= x);
    assert(trim_end(x) == x);
    assert(trim_end(q) == x);
}

/// The body after `-->` is the content.
proof fn lemma_framed_body(c: Seq<char>)
    requires
        c.len() > 0 ==> c[0] != '\n' && c[0] != '\r',
    ensures
        body_after_header(
            lf() + (if c.len() > 0 {
                lf() + c
            } else {
                Seq::empty()
            }),
        ) == c,
{
    let t: Seq<char> = if c.len() > 0 {
        lf() + c
    } else {
        Seq::empty()
    };
    let rest = lf() + t;
    assert(strip_leading(rest, '\r') == rest);
    if c.len() > 0 {
        assert(rest.drop_first() =~= lf() + c);
        assert((lf() + c).drop_first() =~= c);
        assert(strip_leading(c, '\n') == c);
        assert(strip_leading(lf() + c, '\n') == c);
        assert(strip_leading(rest, '\n') == c);
        assert(strip_leading(c, '\r') == c);
    } else {
        assert(rest.len() == 1 && rest[0] == '\n');
        assert(rest.drop_first() =~= Seq::<char>::empty());
        assert(strip_leading(Seq::<char>::empty(), '\n') == Seq::<char>::empty());
        assert(strip_leading(rest, '\n') == strip_leading(rest.drop_first(), '\n'));
        assert(strip_leading(rest, '\n') =~= Seq::<char>::empty());
    }
}

/// The framed file splits into the metadata lines and the content.
#[verifier::spinoff_prover]
#[verifier::rlimit(40)]
proof fn lemma_split_framed(x: Seq<char>, c: Seq<char>)
    requires
        !contains(x, comment_close()),
        x.len() > 0,
        !is_ws(x[0]),
        !is_ws(x.last()),
        c.len() > 0 ==> c[0] != '\n' && c[0] != '\r',
    ensures
        metadata_split(framed(x, c)) == Some((x, c)),
{
    let s = framed(x, c);
    let after = lf() + x + frame_tail(c);
    let m: int = x.len() as int + 2;
    lemma_framed_parts(x, c);
    assert(s[0] == '<');
    assert(trim_start(s) == s);
    assert(s.subrange(0, 4) =~= comment_open());
    assert(starts_with(s, comment_open()));
    assert(s.subrange(4, s.len() as int) =~= after);
    lemma_first_close(x, c);
    assert(after.subrange(0, m) =~= lf() + x + lf());
    lemma_trim_framed_lines(x);
    let t: Seq<char> = if c.len() > 0 {
        lf() + c
    } else {
        Seq::empty()
    };
    assert(after.subrange(m + 3, after.len() as int) =~= lf() + t);
    lemma_framed_body(c);
}

/// The metadata comment is found where it was written, and the body after it is the
/// content.
proof fn lemma_split_serialized(b: BlockView)
    requires
        round_trips(b),
        stamp_shaped(crate::time::rfc3339_secs(b.created.0, b.created.1)),
        stamp_shaped(crate::time::rfc3339_secs(b.modified.0, b.modified.1)),
    ensures
        !contains(serialized(b), crlf()),
        metadata_split(serialized(b)) == Some((metadata_lines(b), b.content)),
{
    let c = b.content;
    lemma_no_crlf_normalized(c);
    lemma_line_pieces(b);
    let x = metadata_lines(b);
    assert(serialized(b) == framed(x, c));
    lemma_framed_no_crlf(x, c);
    lemma_split_framed(x, c);
}

/// A block that `round_trips` parses back from its serialized text, given what the
/// UUID and time crates give for the texts they write.
pub(crate) proof fn lemma_reads_back(b: BlockView)
    requires
        round_trips(b),
        uuid_parse(uuid_text(b.id)) == Some(b.id),
        stamp_shaped(crate::time::rfc3339_secs(b.created.0, b.created.1)),
        stamp_shaped(crate::time::rfc3339_secs(b.modified.0, b.modified.1)),
        timestamp_parse(crate::time::rfc3339_secs(b.created.0, b.created.1)) == Some(b.created),
        timestamp_parse(crate::time::rfc3339_secs(b.modified.0, b.modified.1)) == Some(
            b.modified,
        ),
    ensures
        parse_block_spec(serialized(b)) == Ok::<BlockView, crate::format::FormatFailure>(b),
{
    lemma_split_serialized(b);
    lemma_no_crlf_normalized(serialized(b));
    lemma_metadata_fields(b);
}

} // verus!
