//! Markdown content analysis: heading detection, `[[Name]]` inline references
//! and their `<!-- refs -->` footer annotations.

use vstd::prelude::*;


use crate::ids::{format_uuid, parse_uuid, uuid_parse, uuid_text};
use crate::text::{match_at, assoc_build, assoc_set_id, extend_all, extend_range, find_from, find_in, join_lines, keys_unique, lemma_find_from, lemma_join_push, pairs_view, replace_all, replace_count, count_all, string_of, chars_of, lemma_lines_from_unfold, lines, lines_from, next_line_end, starts_with, string_of_range, strip_leading, text_end, trim, trim_bounds, trim_end, trim_end_bounds};

verus! {

/// Number of leading `' '` characters.
pub open spec fn lead_spaces(s: Seq<char>) -> nat
    decreases s.len(),
{
    if s.len() > 0 && s[0] == ' ' {
        1 + lead_spaces(s.drop_first())
    } else {
        0
    }
}

/// Number of leading occurrences of `c`.
pub open spec fn lead_count(s: Seq<char>, c: char) -> nat
    decreases s.len(),
{
    if s.len() > 0 && s[0] == c {
        1 + lead_count(s.drop_first(), c)
    } else {
        0
    }
}

pub proof fn lemma_lead_count(s: Seq<char>, c: char)
    ensures
        lead_count(s, c) <= s.len(),
        forall|j: int| 0 <= j < lead_count(s, c) ==> s[j] == c,
        lead_count(s, c) < s.len() ==> s[lead_count(s, c) as int] != c,
        strip_leading(s, c) == s.subrange(lead_count(s, c) as int, s.len() as int),
    decreases s.len(),
{
    if s.len() > 0 && s[0] == c {
        lemma_lead_count(s.drop_first(), c);
        assert forall|j: int| 0 <= j < lead_count(s, c) implies s[j] == c by {
            if j > 0 {
                assert(s[j] == s.drop_first()[j - 1]);
            }
        }
        assert(s.drop_first().subrange(lead_count(s.drop_first(), c) as int, s.len() - 1)
            =~= s.subrange(lead_count(s, c) as int, s.len() as int));
    } else {
        assert(s.subrange(0, s.len() as int) =~= s);
    }
}

/// A fenced-code marker: a run of three or more backticks (or tildes) with no
/// further backtick (tilde) after the run.
pub open spec fn is_fence_marker_spec(line: Seq<char>) -> bool {
    ||| (starts_with(line, seq!['`', '`', '`']) && !strip_leading(line, '`').contains('`'))
    ||| (starts_with(line, seq!['~', '~', '~']) && !strip_leading(line, '~').contains('~'))
}

/// An ATX heading `#`..`######` followed by a space and non-blank text:
/// its level and its trimmed text.
pub open spec fn atx_heading(line: Seq<char>) -> Option<(u8, Seq<char>)> {
    let n = lead_count(line, '#');
    let rest = line.subrange(n as int, line.len() as int);
    if n == 0 || n > 6 || rest.len() == 0 || rest[0] != ' ' {
        None
    } else {
        let text = trim(rest.drop_first());
        if text.len() == 0 {
            None
        } else {
            Some((n as u8, text))
        }
    }
}

/// A setext underline: one or more `=`, or one or more `-`, and nothing else.
pub open spec fn is_setext_underline_spec(line: Seq<char>) -> bool {
    line.len() > 0 && (line[0] == '=' || line[0] == '-') && forall|j: int|
        0 <= j < line.len() ==> #[trigger] line[j] == line[0]
}

/// Scan of the lines in order. `in_fence` says whether a fenced code block is open,
/// `prev` is the previous line when it is paragraph text a setext underline could
/// turn into a heading.
pub open spec fn heading_scan(ls: Seq<Seq<char>>, in_fence: bool, prev: Option<Seq<char>>) -> Option<
    (u8, Seq<char>),
>
    decreases ls.len(),
{
    if ls.len() == 0 {
        None
    } else {
        let line = ls[0];
        let rest = ls.drop_first();
        let indent = lead_spaces(line);
        let stripped = trim_end(line.subrange(indent as int, line.len() as int));
        if in_fence {
            heading_scan(rest, !(indent <= 3 && is_fence_marker_spec(stripped)), None)
        } else if indent >= 4 {
            heading_scan(rest, false, None)
        } else if is_fence_marker_spec(stripped) {
            heading_scan(rest, true, None)
        } else if atx_heading(stripped) is Some {
            atx_heading(stripped)
        } else if prev is Some && is_setext_underline_spec(stripped) {
            Some(
                (
                    if stripped[0] == '=' {
                        1u8
                    } else {
                        2u8
                    },
                    trim(prev->0),
                ),
            )
        } else {
            heading_scan(
                rest,
                false,
                if stripped.len() == 0 {
                    None
                } else {
                    Some(stripped)
                },
            )
        }
    }
}

/// The first heading (ATX or setext) outside fenced code in `content`.
pub open spec fn first_heading(content: Seq<char>) -> Option<(u8, Seq<char>)> {
    heading_scan(lines(content), false, None)
}

pub open spec fn heading_view(r: Option<(u8, String)>) -> Option<(u8, Seq<char>)> {
    match r {
        Some((l, t)) => Some((l, t@)),
        None => None,
    }
}

/// Number of leading spaces of `v[lo..hi]`.
pub fn leading_spaces(v: &Vec<char>, lo: usize, hi: usize) -> (n: usize)
    requires
        lo <= hi <= v.len(),
    ensures
        n == lead_spaces(v@.subrange(lo as int, hi as int)),
        lo + n <= hi,
{
    let mut i = lo;
    while i < hi && v[i] == ' '
        invariant
            lo <= i <= hi <= v.len(),
            lead_spaces(v@.subrange(lo as int, hi as int)) == (i - lo) + lead_spaces(
                v@.subrange(i as int, hi as int),
            ),
        decreases hi - i,
    {
        assert(v@.subrange(i as int, hi as int).drop_first() =~= v@.subrange(i + 1, hi as int));
        i += 1;
    }
    i - lo
}

/// Number of leading `c` in `v[lo..hi]`.
fn count_leading(v: &Vec<char>, lo: usize, hi: usize, c: char) -> (n: usize)
    requires
        lo <= hi <= v.len(),
    ensures
        n == lead_count(v@.subrange(lo as int, hi as int), c),
        lo + n <= hi,
{
    let mut i = lo;
    while i < hi && v[i] == c
        invariant
            lo <= i <= hi <= v.len(),
            lead_count(v@.subrange(lo as int, hi as int), c) == (i - lo) + lead_count(
                v@.subrange(i as int, hi as int),
                c,
            ),
        decreases hi - i,
    {
        assert(v@.subrange(i as int, hi as int).drop_first() =~= v@.subrange(i + 1, hi as int));
        i += 1;
    }
    i - lo
}

/// Whether `v[lo..hi]` holds the character `c`.
fn range_contains(v: &Vec<char>, lo: usize, hi: usize, c: char) -> (r: bool)
    requires
        lo <= hi <= v.len(),
    ensures
        r == v@.subrange(lo as int, hi as int).contains(c),
{
    let mut i = lo;
    while i < hi
        invariant
            lo <= i <= hi <= v.len(),
            forall|j: int| lo <= j < i ==> v@[j] != c,
        decreases hi - i,
    {
        if v[i] == c {
            assert(v@.subrange(lo as int, hi as int)[i - lo] == c);
            return true;
        }
        i += 1;
    }
    assert forall|k: int| 0 <= k < hi - lo implies v@.subrange(lo as int, hi as int)[k] != c by {
        assert(v@[lo + k] != c);
    }
    false
}

fn fence_run(v: &Vec<char>, lo: usize, hi: usize, c: char) -> (r: bool)
    requires
        lo <= hi <= v.len(),
    ensures
        r == (starts_with(v@.subrange(lo as int, hi as int), seq![c, c, c]) && !strip_leading(
            v@.subrange(lo as int, hi as int),
            c,
        ).contains(c)),
{
    let ghost s = v@.subrange(lo as int, hi as int);
    proof {
        lemma_lead_count(s, c);
    }
    if hi - lo < 3 || v[lo] != c || v[lo + 1] != c || v[lo + 2] != c {
        proof {
            if hi - lo >= 3 {
                assert(s.subrange(0, 3)[0] == s[0]);
                assert(s.subrange(0, 3)[1] == s[1]);
                assert(s.subrange(0, 3)[2] == s[2]);
            }
        }
        return false;
    }
    assert(s.subrange(0, 3) =~= seq![c, c, c]);
    let n = count_leading(v, lo, hi, c);
    assert(s.subrange(n as int, s.len() as int) =~= v@.subrange(lo + n, hi as int));
    !range_contains(v, lo + n, hi, c)
}

/// Whether `v[lo..hi]` is a fenced-code marker.
pub fn is_fence_marker(v: &Vec<char>, lo: usize, hi: usize) -> (r: bool)
    requires
        lo <= hi <= v.len(),
    ensures
        r == is_fence_marker_spec(v@.subrange(lo as int, hi as int)),
{
    fence_run(v, lo, hi, '`') || fence_run(v, lo, hi, '~')
}

/// The ATX heading `v[lo..hi]` is, if any: its level and the bounds of its text.
pub fn detect_atx_heading(v: &Vec<char>, lo: usize, hi: usize) -> (r: Option<(u8, usize, usize)>)
    requires
        lo <= hi <= v.len(),
    ensures
        match r {
            Some((level, a, b)) => lo <= a <= b <= hi && atx_heading(
                v@.subrange(lo as int, hi as int),
            ) == Some((level, v@.subrange(a as int, b as int))),
            None => atx_heading(v@.subrange(lo as int, hi as int)) is None,
        },
{
    let ghost s = v@.subrange(lo as int, hi as int);
    let n = count_leading(v, lo, hi, '#');
    let ghost rest = s.subrange(n as int, s.len() as int);
    assert(rest =~= v@.subrange(lo + n, hi as int));
    if n == 0 || n > 6 || lo + n == hi || v[lo + n] != ' ' {
        return None;
    }
    assert(rest.drop_first() =~= v@.subrange(lo + n + 1, hi as int));
    let (a, b) = trim_bounds(v, lo + n + 1, hi);
    if a == b {
        return None;
    }
    Some((n as u8, a, b))
}

/// Whether `v[lo..hi]` is a setext underline.
pub fn is_setext_underline(v: &Vec<char>, lo: usize, hi: usize) -> (r: bool)
    requires
        lo <= hi <= v.len(),
    ensures
        r == is_setext_underline_spec(v@.subrange(lo as int, hi as int)),
{
    let ghost s = v@.subrange(lo as int, hi as int);
    if lo == hi {
        return false;
    }
    let marker = v[lo];
    if marker != '=' && marker != '-' {
        return false;
    }
    let mut i = lo;
    while i < hi
        invariant
            lo <= i <= hi <= v.len(),
            s == v@.subrange(lo as int, hi as int),
            marker == v@[lo as int],
            forall|j: int| lo <= j < i ==> v@[j] == marker,
        decreases hi - i,
    {
        if v[i] != marker {
            assert(s[i - lo] != s[0]);
            return false;
        }
        i += 1;
    }
    assert forall|j: int| 0 <= j < s.len() implies #[trigger] s[j] == s[0] by {
        assert(s[j] == v@[lo + j]);
    }
    true
}

/// Find the first heading (ATX or setext) outside a fenced code block.
/// Returns `(level, heading_text)` if found.
///
/// Lines indented by four or more spaces are indented code, not structure.
pub fn find_heading_outside_fence(content: &str) -> (r: Option<(u8, String)>)
    ensures
        heading_view(r) == first_heading(content@),
{
    let v = chars_of(content);
    let mut in_fence = false;
    let mut prev: Option<(usize, usize)> = None;
    let mut start: usize = 0;
    while start < v.len()
        invariant
            start <= v.len(),
            prev matches Some((a, b)) ==> a <= b <= v.len(),
            heading_scan(lines_from(v@, start as int), in_fence, match prev {
                Some((a, b)) => Some(v@.subrange(a as int, b as int)),
                None => None,
            }) == first_heading(content@),
        decreases v.len() - start,
    {
        let e = next_line_end(&v, start);
        let le = text_end(&v, start, e);
        proof {
            lemma_lines_from_unfold(v@, start as int);
        }
        let ghost line = v@.subrange(start as int, le as int);
        let indent = leading_spaces(&v, start, le);
        let hi = trim_end_bounds(&v, start + indent, le);
        let ghost stripped = v@.subrange(start + indent, hi as int);
        assert(line.subrange(indent as int, line.len() as int) =~= v@.subrange(
            start + indent,
            le as int,
        ));
        if in_fence {
            if indent <= 3 && is_fence_marker(&v, start + indent, hi) {
                in_fence = false;
            }
            prev = None;
        } else if indent >= 4 {
            prev = None;
        } else if is_fence_marker(&v, start + indent, hi) {
            in_fence = true;
            prev = None;
        } else {
            match detect_atx_heading(&v, start + indent, hi) {
                Some((level, a, b)) => {
                    return Some((level, string_of_range(&v, a, b)));
                },
                None => {},
            }
            if prev.is_some() && is_setext_underline(&v, start + indent, hi) {
                let (pa, pb) = prev.unwrap();
                let level: u8 = if v[start + indent] == '=' {
                    1
                } else {
                    2
                };
                let (ta, tb) = trim_bounds(&v, pa, pb);
                return Some((level, string_of_range(&v, ta, tb)));
            }
            if hi == start + indent {
                prev = None;
            } else {
                prev = Some((start + indent, hi));
            }
        }
        if e >= v.len() {
            start = v.len();
            assert(lines_from(v@, start as int) =~= Seq::<Seq<char>>::empty());
        } else {
            start = e + 1;
        }
    }
    assert(lines_from(v@, start as int) =~= Seq::<Seq<char>>::empty());
    None
}

pub open spec fn open_brackets() -> Seq<char> {
    seq!['[', '[']
}

pub open spec fn close_brackets() -> Seq<char> {
    seq![']', ']']
}

/// `[[name]]`.
pub open spec fn inline_ref(name: Seq<char>) -> Seq<char> {
    open_brackets() + name + close_brackets()
}

/// `]: uuid:`.
pub open spec fn annotation_sep() -> Seq<char> {
    seq![']', ':', ' ', 'u', 'u', 'i', 'd', ':']
}

/// `[name]: uuid:`, the start of a footer annotation for `name`.
pub open spec fn annotation_prefix(name: Seq<char>) -> Seq<char> {
    seq!['['] + name + annotation_sep()
}

/// `[name]: uuid:<target>`, the whole footer annotation line.
pub open spec fn annotation_line(name: Seq<char>, target: u128) -> Seq<char> {
    annotation_prefix(name) + uuid_text(target)
}

/// `<!-- refs -->`, the marker that opens the footer.
pub open spec fn refs_marker() -> Seq<char> {
    seq!['<', '!', '-', '-', ' ', 'r', 'e', 'f', 's', ' ', '-', '-', '>']
}

/// The names of the `[[Name]]` references in `s[i..]`, trimmed, empty ones skipped.
pub open spec fn inline_refs_from(s: Seq<char>, i: int) -> Seq<Seq<char>>
    decreases s.len() - i,
{
    if i < 0 || i > s.len() {
        Seq::empty()
    } else {
        match find_from(s, open_brackets(), i) {
            None => Seq::empty(),
            Some(st) => {
                proof {
                    lemma_find_from(s, open_brackets(), i);
                }
                match find_from(s, close_brackets(), st + 2) {
                    None => Seq::empty(),
                    Some(e) => {
                        proof {
                            lemma_find_from(s, close_brackets(), st + 2);
                        }
                        let name = trim(s.subrange(st + 2, e));
                        (if name.len() > 0 {
                            seq![name]
                        } else {
                            Seq::empty()
                        }) + inline_refs_from(s, e + 2)
                    },
                }
            },
        }
    }
}

pub open spec fn inline_refs(s: Seq<char>) -> Seq<Seq<char>> {
    inline_refs_from(s, 0)
}

pub open spec fn strings_view(v: Seq<String>) -> Seq<Seq<char>> {
    v.map_values(|x: String| x@)
}

fn bracketed(name: &Vec<char>) -> (r: Vec<char>)
    ensures
        r@ == inline_ref(name@),
{
    let mut r: Vec<char> = Vec::new();
    r.push('[');
    r.push('[');
    extend_all(&mut r, name);
    r.push(']');
    r.push(']');
    assert(r@ =~= inline_ref(name@));
    r
}

fn annotation_sep_chars() -> (r: Vec<char>)
    ensures
        r@ == annotation_sep(),
{
    let r = chars_of("]: uuid:");
    proof {
        reveal_strlit("]: uuid:");
        assert(r@ =~= annotation_sep());
    }
    r
}

fn prefix_chars(name: &Vec<char>) -> (r: Vec<char>)
    ensures
        r@ == annotation_prefix(name@),
{
    let mut r: Vec<char> = Vec::new();
    r.push('[');
    extend_all(&mut r, name);
    let sep = annotation_sep_chars();
    extend_all(&mut r, &sep);
    assert(r@ =~= annotation_prefix(name@));
    r
}

fn refs_marker_chars() -> (r: Vec<char>)
    ensures
        r@ == refs_marker(),
{
    let r = chars_of("<!-- refs -->");
    proof {
        reveal_strlit("<!-- refs -->");
        assert(r@ =~= refs_marker());
    }
    r
}

/// Extract all `[[Name]]` inline references from block content.
pub fn extract_inline_refs(content: &str) -> (r: Vec<String>)
    ensures
        strings_view(r@) == inline_refs(content@),
{
    let v = chars_of(content);
    let open = chars_of("[[");
    let close = chars_of("]]");
    proof {
        reveal_strlit("[[");
        reveal_strlit("]]");
        assert(open@ =~= open_brackets());
        assert(close@ =~= close_brackets());
    }
    let mut refs: Vec<String> = Vec::new();
    let mut i: usize = 0;
    loop
        invariant
            i <= v.len(),
            v@ == content@,
            open@ == open_brackets(),
            close@ == close_brackets(),
            strings_view(refs@) + inline_refs_from(v@, i as int) == inline_refs(content@),
        decreases v.len() - i,
    {
        proof {
            lemma_find_from(v@, open_brackets(), i as int);
        }
        let st = match find_in(&v, &open, i) {
            None => {
                assert(strings_view(refs@) + Seq::<Seq<char>>::empty() =~= strings_view(refs@));
                return refs;
            },
            Some(st) => st,
        };
        proof {
            lemma_find_from(v@, close_brackets(), st + 2);
        }
        let e = match find_in(&v, &close, st + 2) {
            None => {
                assert(strings_view(refs@) + Seq::<Seq<char>>::empty() =~= strings_view(refs@));
                return refs;
            },
            Some(e) => e,
        };
        let (a, b) = trim_bounds(&v, st + 2, e);
        let ghost before = strings_view(refs@);
        if a < b {
            let name = string_of_range(&v, a, b);
            refs.push(name);
            assert(strings_view(refs@) =~= before.push(v@.subrange(a as int, b as int)));
            assert(before + inline_refs_from(v@, i as int) == before + (seq![
                v@.subrange(a as int, b as int),
            ] + inline_refs_from(v@, e + 2)));
            assert(before + (seq![v@.subrange(a as int, b as int)] + inline_refs_from(v@, e + 2))
                =~= strings_view(refs@) + inline_refs_from(v@, e + 2));
        } else {
            assert(Seq::<Seq<char>>::empty() + inline_refs_from(v@, e + 2) =~= inline_refs_from(
                v@,
                e + 2,
            ));
        }
        i = e + 2;
    }
}

/// The content with every `[[old_name]]` turned into `[[new_name]]` and every footer
/// annotation prefix `[old_name]: uuid:` turned into `[new_name]: uuid:`.
pub open spec fn renamed_content(c: Seq<char>, old_name: Seq<char>, new_name: Seq<char>) -> Seq<
    char,
> {
    replace_all(
        replace_all(c, inline_ref(old_name), inline_ref(new_name)),
        annotation_prefix(old_name),
        annotation_prefix(new_name),
    )
}

/// Replace all `[[old_name]]` inline references with `[[new_name]]` and rename
/// the corresponding footer annotation prefix `[old_name]: uuid:` to
/// `[new_name]: uuid:`. Returns `(updated_content, count)` where `count` is
/// the number of `[[old_name]]` occurrences replaced (the footer rename is not
/// counted separately — it tracks the inline ref).
pub fn rename_reference(content: &str, old_name: &str, new_name: &str) -> (r: (String, usize))
    ensures
        r.0@ == renamed_content(content@, old_name@, new_name@),
        r.1 == count_all(content@, inline_ref(old_name@)),
{
    let v = chars_of(content);
    let o = chars_of(old_name);
    let n = chars_of(new_name);
    let oi = bracketed(&o);
    let ni = bracketed(&n);
    let (r1, count) = replace_count(&v, &oi, &ni);
    let of = prefix_chars(&o);
    let nf = prefix_chars(&n);
    let (r2, _) = replace_count(&r1, &of, &nf);
    (string_of(&r2), count)
}

/// Lines whose trimmed text is not `f`.
pub open spec fn lines_without(ls: Seq<Seq<char>>, f: Seq<char>) -> Seq<Seq<char>>
    decreases ls.len(),
{
    if ls.len() == 0 {
        Seq::empty()
    } else {
        (if trim(ls[0]) == f {
            Seq::empty()
        } else {
            seq![ls[0]]
        }) + lines_without(ls.drop_first(), f)
    }
}

/// The content with every `[[name]]` turned into plain `name` and the footer annotation
/// line `[name]: uuid:<target>` removed; a final line break is kept.
pub open spec fn reverted_content(c: Seq<char>, name: Seq<char>, target: u128) -> Seq<char> {
    let r = replace_all(c, inline_ref(name), name);
    let body = join_lines(lines_without(lines(r), annotation_line(name, target)));
    if r.len() > 0 && r.last() == '\n' {
        body.push('\n')
    } else {
        body
    }
}

/// Whether `v[a..b]` is exactly `f`.
fn range_equals(v: &Vec<char>, a: usize, b: usize, f: &Vec<char>) -> (r: bool)
    requires
        a <= b <= v.len(),
    ensures
        r == (v@.subrange(a as int, b as int) == f@),
{
    if b - a != f.len() {
        return false;
    }
    match_at(v, f, a)
}

/// Revert `[[name]]` to plain text `name` and remove the footer annotation
/// `[name]: uuid:<target_uuid>`. Returns `(updated_content, count)` where
/// `count` is the number of inline ref occurrences reverted.
pub fn revert_reference(content: &str, name: &str, target_uuid: u128) -> (r: (String, usize))
    ensures
        r.0@ == reverted_content(content@, name@, target_uuid),
        r.1 == count_all(content@, inline_ref(name@)),
{
    let v = chars_of(content);
    let nm = chars_of(name);
    let inline = bracketed(&nm);
    let (r1, count) = replace_count(&v, &inline, &nm);
    let mut footer = prefix_chars(&nm);
    let ut = format_uuid(target_uuid);
    let utv = chars_of(ut.as_str());
    extend_all(&mut footer, &utv);
    let ghost f = annotation_line(name@, target_uuid);
    assert(footer@ =~= f);
    let has_trailing_newline = r1.len() > 0 && r1[r1.len() - 1] == '\n';
    let mut out: Vec<char> = Vec::new();
    let ghost mut kept: Seq<Seq<char>> = Seq::empty();
    let mut any_kept = false;
    let mut start: usize = 0;
    while start < r1.len()
        invariant
            start <= r1.len(),
            footer@ == f,
            out@ == join_lines(kept),
            any_kept == (kept.len() > 0),
            kept + lines_without(lines_from(r1@, start as int), f) == lines_without(
                lines(r1@),
                f,
            ),
        decreases r1.len() - start,
    {
        let e = next_line_end(&r1, start);
        let le = text_end(&r1, start, e);
        proof {
            lemma_lines_from_unfold(r1@, start as int);
        }
        let ghost line = r1@.subrange(start as int, le as int);
        let ghost rest = lines_from(r1@, start as int).drop_first();
        assert(lines_from(r1@, start as int)[0] == line);
        assert(lines_without(lines_from(r1@, start as int), f) == (if trim(line) == f {
            Seq::<Seq<char>>::empty()
        } else {
            seq![line]
        }) + lines_without(rest, f));
        let (a, b) = trim_bounds(&r1, start, le);
        if !range_equals(&r1, a, b, &footer) {
            proof {
                lemma_join_push(kept, line);
            }
            if any_kept {
                out.push('\n');
            }
            extend_range(&mut out, &r1, start, le);
            any_kept = true;
            proof {
                assert(kept + (seq![line] + lines_without(rest, f)) =~= kept.push(line)
                    + lines_without(rest, f));
                kept = kept.push(line);
            }
        } else {
            assert(kept + (Seq::<Seq<char>>::empty() + lines_without(rest, f)) =~= kept
                + lines_without(rest, f));
        }
        if e >= r1.len() {
            start = r1.len();
            assert(lines_from(r1@, start as int) =~= Seq::<Seq<char>>::empty());
            assert(rest =~= Seq::<Seq<char>>::empty());
        } else {
            start = e + 1;
        }
    }
    assert(lines_from(r1@, start as int) =~= Seq::<Seq<char>>::empty());
    assert(kept + Seq::<Seq<char>>::empty() =~= kept);
    if has_trailing_newline {
        out.push('\n');
    }
    (string_of(&out), count)
}

/// The `(name, target)` a footer line annotates: `[name]: uuid:<uuid>` after trimming.
pub open spec fn annotation_of(line: Seq<char>) -> Option<(Seq<char>, u128)> {
    let t = trim(line);
    if t.len() == 0 || t[0] != '[' {
        None
    } else {
        match find_from(t, annotation_sep(), 0) {
            None => None,
            Some(close) => match uuid_parse(trim(t.subrange(close + 8, t.len() as int))) {
                None => None,
                Some(u) => Some((t.subrange(1, close), u)),
            },
        }
    }
}

/// The annotations of the lines, in order.
pub open spec fn annotations_in(ls: Seq<Seq<char>>) -> Seq<(Seq<char>, u128)>
    decreases ls.len(),
{
    if ls.len() == 0 {
        Seq::empty()
    } else {
        (match annotation_of(ls[0]) {
            Some(a) => seq![a],
            None => Seq::empty(),
        }) + annotations_in(ls.drop_first())
    }
}

/// The annotations of the lines from the `<!-- refs -->` marker on.
pub open spec fn footer_entries(c: Seq<char>) -> Seq<(Seq<char>, u128)> {
    match find_from(c, refs_marker(), 0) {
        None => Seq::empty(),
        Some(p) => annotations_in(lines(c.subrange(p, c.len() as int))),
    }
}

/// The footer annotations as a name-to-target association (a later line for a name
/// replaces an earlier one).
pub open spec fn footer_annotations(c: Seq<char>) -> Seq<(Seq<char>, u128)> {
    assoc_build(footer_entries(c))
}

/// The annotation of the line `v[lo..hi]`, with the name returned as a string.
fn annotation_in_line(v: &Vec<char>, lo: usize, hi: usize) -> (r: Option<(String, u128)>)
    requires
        lo <= hi <= v.len(),
    ensures
        match r {
            Some((n, u)) => annotation_of(v@.subrange(lo as int, hi as int)) == Some((n@, u)),
            None => annotation_of(v@.subrange(lo as int, hi as int)) is None,
        },
{
    let (a, b) = trim_bounds(v, lo, hi);
    if a == b || v[a] != '[' {
        return None;
    }
    let mut t: Vec<char> = Vec::new();
    extend_range(&mut t, v, a, b);
    assert(t@ =~= trim(v@.subrange(lo as int, hi as int)));
    let sep = annotation_sep_chars();
    proof {
        lemma_find_from(t@, annotation_sep(), 0);
    }
    let close = match find_in(&t, &sep, 0) {
        None => {
            return None;
        },
        Some(close) => close,
    };
    assert(close >= 1) by {
        if close == 0 {
            assert(t@.subrange(0, 8)[0] == ']');
        }
    }
    let (ua, ub) = trim_bounds(&t, close + 8, t.len());
    let us = string_of_range(&t, ua, ub);
    match parse_uuid(us.as_str()) {
        None => None,
        Some(u) => Some((string_of_range(&t, 1, close), u)),
    }
}

/// Extract footer annotations from `[Name]: uuid:<uuid>` lines after `<!-- refs -->`,
/// as a list of `(name, target)` with distinct names.
pub fn extract_footer_annotations(content: &str) -> (r: Vec<(String, u128)>)
    ensures
        pairs_view(r@) == footer_annotations(content@),
        keys_unique(pairs_view(r@)),
{
    let v = chars_of(content);
    let marker = refs_marker_chars();
    let mut out: Vec<(String, u128)> = Vec::new();
    assert(pairs_view(out@) =~= Seq::<(Seq<char>, u128)>::empty());
    let pos = match find_in(&v, &marker, 0) {
        None => {
            return out;
        },
        Some(p) => p,
    };
    let mut fv: Vec<char> = Vec::new();
    extend_range(&mut fv, &v, pos, v.len());
    assert(fv@ =~= v@.subrange(pos as int, v.len() as int));
    let ghost mut done: Seq<(Seq<char>, u128)> = Seq::empty();
    let mut start: usize = 0;
    while start < fv.len()
        invariant
            start <= fv.len(),
            pairs_view(out@) == assoc_build(done),
            keys_unique(pairs_view(out@)),
            done + annotations_in(lines_from(fv@, start as int)) == footer_entries(content@),
        decreases fv.len() - start,
    {
        let e = next_line_end(&fv, start);
        let le = text_end(&fv, start, e);
        proof {
            lemma_lines_from_unfold(fv@, start as int);
        }
        let ghost line = fv@.subrange(start as int, le as int);
        let ghost rest = lines_from(fv@, start as int).drop_first();
        assert(annotations_in(lines_from(fv@, start as int)) == (match annotation_of(line) {
            Some(a) => seq![a],
            None => Seq::<(Seq<char>, u128)>::empty(),
        }) + annotations_in(rest));
        match annotation_in_line(&fv, start, le) {
            Some((name, u)) => {
                let ghost entry = (name@, u);
                assign_entry(&mut out, name, u);
                proof {
                    assert(done.push(entry).drop_last() =~= done);
                    assert(done + (seq![entry] + annotations_in(rest)) =~= done.push(entry)
                        + annotations_in(rest));
                    done = done.push(entry);
                }
            },
            None => {
                assert(done + (Seq::<(Seq<char>, u128)>::empty() + annotations_in(rest)) =~= done
                    + annotations_in(rest));
            },
        }
        if e >= fv.len() {
            start = fv.len();
            assert(lines_from(fv@, start as int) =~= Seq::<Seq<char>>::empty());
            assert(rest =~= Seq::<Seq<char>>::empty());
        } else {
            start = e + 1;
        }
    }
    assert(lines_from(fv@, start as int) =~= Seq::<Seq<char>>::empty());
    assert(done + Seq::<(Seq<char>, u128)>::empty() =~= done);
    out
}

fn assign_entry(out: &mut Vec<(String, u128)>, name: String, u: u128)
    requires
        keys_unique(pairs_view(old(out)@)),
    ensures
        pairs_view(final(out)@) == crate::text::assoc_put(pairs_view(old(out)@), name@, u),
        keys_unique(pairs_view(final(out)@)),
{
    assoc_set_id(out, name, u);
}

} // verus!
