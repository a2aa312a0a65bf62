//! Block-reference links in block content: `[display text](block:<uuid>)`.

use vstd::prelude::*;

use crate::ids::{format_uuid, parse_uuid, uuid_parse, uuid_text};
use crate::text::{chars_of, extend_all, extend_range, find_from, find_in, lemma_find_from, string_of, string_of_range, contains, matches_at};

verus! {

/// `(block:`, the opening of a link target.
pub open spec fn scheme_open() -> Seq<char> {
    seq!['(', 'b', 'l', 'o', 'c', 'k', ':']
}

/// `](block:<uuid>)`: the end of a link to `target`.
pub open spec fn link_tail(target: u128) -> Seq<char> {
    seq![']'] + scheme_open() + uuid_text(target) + seq![')']
}

/// Position of the last `[` in `s`.
pub open spec fn last_open(s: Seq<char>) -> Option<int>
    decreases s.len(),
{
    if s.len() == 0 {
        None
    } else if s.last() == '[' {
        Some(s.len() - 1)
    } else {
        last_open(s.drop_last())
    }
}

pub proof fn lemma_last_open(s: Seq<char>)
    ensures
        last_open(s) matches Some(i) ==> 0 <= i < s.len() && s[i] == '[' && forall|j: int|
            i < j < s.len() ==> s[j] != '[',
        last_open(s) is None ==> forall|j: int| 0 <= j < s.len() ==> s[j] != '[',
    decreases s.len(),
{
    if s.len() > 0 && s.last() != '[' {
        lemma_last_open(s.drop_last());
        assert forall|j: int| 0 <= j < s.len() - 1 implies s[j] == s.drop_last()[j] by {}
    }
}

/// The links found scanning `s` from `i`: at each `(block:` followed by 36 characters that
/// parse as a UUID and a `)`, the text from the last `[` before the `(` up to the character
/// before the `(`. `None` where the scan would slice backwards (a `[` right before the `(`).
pub open spec fn block_refs_from(s: Seq<char>, i: int) -> Option<Seq<(Seq<char>, u128)>>
    decreases s.len() - i,
{
    if i < 0 || i >= s.len() {
        Some(Seq::empty())
    } else {
        match find_from(s, scheme_open(), i) {
            None => Some(Seq::empty()),
            Some(p) => {
                proof {
                    lemma_find_from(s, scheme_open(), i);
                }
                let u = p + 7;
                if u + 36 > s.len() {
                    Some(Seq::empty())
                } else {
                    match uuid_parse(s.subrange(u, u + 36)) {
                        None => block_refs_from(s, u + 1),
                        Some(id) => if u + 36 >= s.len() || s[u + 36] != ')' {
                            block_refs_from(s, u + 1)
                        } else {
                            let close = if p >= 1 {
                                p - 1
                            } else {
                                0
                            };
                            match last_open(s.subrange(0, close + 1)) {
                                None => block_refs_from(s, u + 37),
                                Some(o) => if o + 1 > close {
                                    None
                                } else {
                                    match block_refs_from(s, u + 37) {
                                        None => None,
                                        Some(rest) => Some(
                                            seq![(s.subrange(o + 1, close), id)] + rest,
                                        ),
                                    }
                                },
                            }
                        },
                    }
                }
            },
        }
    }
}

pub open spec fn block_refs(s: Seq<char>) -> Option<Seq<(Seq<char>, u128)>> {
    block_refs_from(s, 0)
}

fn scheme_chars() -> (r: Vec<char>)
    ensures
        r@ == scheme_open(),
{
    let r = chars_of("(block:");
    proof {
        reveal_strlit("(block:");
        assert(r@ =~= scheme_open());
    }
    r
}

fn last_open_in(v: &Vec<char>, hi: usize) -> (r: Option<usize>)
    requires
        hi <= v.len(),
    ensures
        match r {
            Some(o) => last_open(v@.subrange(0, hi as int)) == Some(o as int),
            None => last_open(v@.subrange(0, hi as int)) is None,
        },
{
    let mut k = hi;
    while k > 0
        invariant
            k <= hi <= v.len(),
            last_open(v@.subrange(0, k as int)) == last_open(v@.subrange(0, hi as int)),
        decreases k,
    {
        assert(v@.subrange(0, k as int).last() == v@[k - 1]);
        if v[k - 1] == '[' {
            return Some(k - 1);
        }
        assert(v@.subrange(0, k as int).drop_last() =~= v@.subrange(0, k - 1));
        k -= 1;
    }
    None
}

pub open spec fn refs_view(r: Vec<(String, u128)>) -> Seq<(Seq<char>, u128)> {
    r@.map_values(|p: (String, u128)| (p.0@, p.1))
}

/// The `[text](block:uuid)` links of content, in order, as `(display_text, target_uuid)`,
/// or `None` when a link's `[` stands right before its `(`, where extraction would slice
/// backwards.
pub fn scan_block_refs(content: &str) -> (r: Option<Vec<(String, u128)>>)
    ensures
        match r {
            Some(v) => block_refs(content@) == Some(refs_view(v)),
            None => block_refs(content@) is None,
        },
{
    let v = chars_of(content);
    let open = scheme_chars();
    let mut refs: Vec<(String, u128)> = Vec::new();
    let mut i: usize = 0;
    assert(refs_view(refs) =~= Seq::<(Seq<char>, u128)>::empty());
    while i < v.len()
        invariant
            v@ == content@,
            open@ == scheme_open(),
            block_refs(content@) matches Some(all) ==> block_refs_from(v@, i as int) matches Some(
                rest,
            ) && all == refs_view(refs) + rest,
            block_refs(content@) is None ==> block_refs_from(v@, i as int) is None,
        ensures
            block_refs(content@) == Some(refs_view(refs)),
        decreases v.len() - i,
    {
        proof {
            lemma_find_from(v@, scheme_open(), i as int);
        }
        let p = match find_in(&v, &open, i) {
            None => {
                assert(refs_view(refs) + Seq::<(Seq<char>, u128)>::empty() =~= refs_view(refs));
                break;
            },
            Some(p) => p,
        };
        let u = p + 7;
        if u > v.len() || 36 > v.len() - u {
            assert(refs_view(refs) + Seq::<(Seq<char>, u128)>::empty() =~= refs_view(refs));
            break;
        }
        let slice = string_of_range(&v, u, u + 36);
        let id = match parse_uuid(slice.as_str()) {
            None => {
                i = u + 1;
                continue;
            },
            Some(id) => id,
        };
        if u + 36 >= v.len() || v[u + 36] != ')' {
            i = u + 1;
            continue;
        }
        let close = if p >= 1 {
            p - 1
        } else {
            0
        };
        match last_open_in(&v, close + 1) {
            None => {},
            Some(o) => {
                if o >= close {
                    return None;
                }
                let display = string_of_range(&v, o + 1, close);
                let ghost before = refs_view(refs);
                refs.push((display, id));
                proof {
                    let rest = block_refs_from(v@, u + 37)->0;
                    assert(refs_view(refs) =~= before.push((v@.subrange(o + 1, close as int), id)));
                    assert(before + (seq![(v@.subrange(o + 1, close as int), id)] + rest)
                        =~= refs_view(refs) + rest);
                }
            },
        }
        i = u + 37;
    }
    Some(refs)
}

/// Extract all `[text](block:uuid)` links from content, in order, as
/// `(display_text, target_uuid)`; several links to the same block are all returned.
pub fn extract_block_refs(content: &str) -> (r: Vec<(String, u128)>)
    requires
        block_refs(content@) is Some,
    ensures
        block_refs(content@) == Some(refs_view(r)),
{
    match scan_block_refs(content) {
        Some(v) => v,
        None => Vec::new(),
    }
}

/// The content with each link to `target`, scanning from `ss`, rewritten as
/// `[new_name](block:<target>)` (from the last `[` before the link's `]`, or from the start
/// when there is none), and the number of links rewritten.
pub open spec fn renamed_links_from(s: Seq<char>, ss: int, target: u128, new_name: Seq<char>) -> (
    Seq<char>,
    nat,
)
    decreases s.len() - ss,
{
    let needle = link_tail(target);
    if ss < 0 || ss > s.len() {
        (s, 0)
    } else {
        match find_from(s, needle, ss) {
            None => (s, 0),
            Some(ns) => {
                proof {
                    lemma_find_from(s, needle, ss);
                }
                let le = ns + needle.len();
                let cs = match last_open(s.subrange(0, ns)) {
                    Some(o) => o,
                    None => 0,
                };
                proof {
                    lemma_last_open(s.subrange(0, ns));
                }
                let link = seq!['['] + new_name + needle;
                let s2 = s.subrange(0, cs) + link + s.subrange(le, s.len() as int);
                let rest = renamed_links_from(s2, cs + link.len(), target, new_name);
                (rest.0, rest.1 + 1)
            },
        }
    }
}

/// The content with each link to `target`, scanning from `ss`, replaced by its display
/// text (from the last `[` before the link's `]`, or from the second character when there
/// is none), and the number replaced; `None` where the text slice would run backwards (a
/// link at the very start with no `[`).
pub open spec fn reverted_links_from(s: Seq<char>, ss: int, target: u128) -> Option<(Seq<char>, nat)>
    decreases s.len() - ss,
{
    let needle = link_tail(target);
    if ss < 0 || ss > s.len() {
        Some((s, 0))
    } else {
        match find_from(s, needle, ss) {
            None => Some((s, 0)),
            Some(ns) => {
                proof {
                    lemma_find_from(s, needle, ss);
                }
                let le = ns + needle.len();
                let cs = match last_open(s.subrange(0, ns)) {
                    Some(o) => o,
                    None => 0,
                };
                proof {
                    lemma_last_open(s.subrange(0, ns));
                }
                if cs + 1 > ns {
                    None
                } else {
                    let display = s.subrange(cs + 1, ns);
                    let s2 = s.subrange(0, cs) + display + s.subrange(le, s.len() as int);
                    match reverted_links_from(s2, cs + display.len(), target) {
                        None => None,
                        Some(rest) => Some((rest.0, rest.1 + 1)),
                    }
                }
            },
        }
    }
}

fn tail_chars(target: u128) -> (r: Vec<char>)
    ensures
        r@ == link_tail(target),
{
    let mut r: Vec<char> = Vec::new();
    r.push(']');
    let open = scheme_chars();
    extend_all(&mut r, &open);
    let t = format_uuid(target);
    let tv = chars_of(t.as_str());
    extend_all(&mut r, &tv);
    r.push(')');
    assert(r@ =~= link_tail(target));
    r
}

/// Replace every `[old](block:target_uuid)` in content with `[new_name](block:target_uuid)`.
/// Returns (updated_content, count).
pub fn rename_refs_in_content(content: &str, target_uuid: u128, new_name: &str) -> (r: (
    String,
    usize,
))
    ensures
        (r.0@, r.1 as nat) == renamed_links_from(content@, 0, target_uuid, new_name@),
{
    let needle = tail_chars(target_uuid);
    let nm = chars_of(new_name);
    let mut link: Vec<char> = Vec::new();
    link.push('[');
    extend_all(&mut link, &nm);
    extend_all(&mut link, &needle);
    assert(link@ =~= seq!['['] + new_name@ + link_tail(target_uuid));
    let mut result = chars_of(content);
    let n0 = result.len();
    let mut count: usize = 0;
    let mut ss: usize = 0;
    loop
        invariant
            needle@ == link_tail(target_uuid),
            link@ == seq!['['] + new_name@ + link_tail(target_uuid),
            ss <= result.len(),
            count + (result@.len() - ss) <= n0,
            ({
                let rest = renamed_links_from(result@, ss as int, target_uuid, new_name@);
                renamed_links_from(content@, 0, target_uuid, new_name@) == (rest.0, (rest.1
                    + count) as nat)
            }),
        ensures
            renamed_links_from(content@, 0, target_uuid, new_name@) == (result@, count as nat),
        decreases result.len() - ss,
    {
        proof {
            lemma_find_from(result@, link_tail(target_uuid), ss as int);
        }
        let ns = match find_in(&result, &needle, ss) {
            None => {
                break;
            },
            Some(ns) => ns,
        };
        let le = ns + needle.len();
        let cs = match last_open_in(&result, ns) {
            Some(o) => o,
            None => 0,
        };
        proof {
            lemma_last_open(result@.subrange(0, ns as int));
        }
        let mut next: Vec<char> = Vec::new();
        extend_range(&mut next, &result, 0, cs);
        extend_all(&mut next, &link);
        extend_range(&mut next, &result, le, result.len());
        let ghost s2 = result@.subrange(0, cs as int) + link@ + result@.subrange(
            le as int,
            result@.len() as int,
        );
        assert(next@ =~= s2);
        result = next;
        count += 1;
        ss = cs + link.len();
    }
    (string_of(&result), count)
}

/// Whether `revert_refs_in_content` can revert the links to `target` in `content`: no
/// link reached by the scan stands at the very start without a `[` before it.
pub fn links_revertible(content: &str, target_uuid: u128) -> (r: bool)
    ensures
        r == reverted_links_from(content@, 0, target_uuid) is Some,
{
    let needle = tail_chars(target_uuid);
    let mut result = chars_of(content);
    let mut ss: usize = 0;
    loop
        invariant
            needle@ == link_tail(target_uuid),
            ss <= result.len(),
            (reverted_links_from(content@, 0, target_uuid) is Some) == (reverted_links_from(
                result@,
                ss as int,
                target_uuid,
            ) is Some),
        decreases result.len() - ss,
    {
        proof {
            lemma_find_from(result@, link_tail(target_uuid), ss as int);
        }
        let ns = match find_in(&result, &needle, ss) {
            None => {
                return true;
            },
            Some(ns) => ns,
        };
        let le = ns + needle.len();
        let cs = match last_open_in(&result, ns) {
            Some(o) => o,
            None => 0,
        };
        proof {
            lemma_last_open(result@.subrange(0, ns as int));
        }
        if cs + 1 > ns {
            return false;
        }
        let mut next: Vec<char> = Vec::new();
        extend_range(&mut next, &result, 0, cs);
        extend_range(&mut next, &result, cs + 1, ns);
        extend_range(&mut next, &result, le, result.len());
        assert(next@ =~= result@.subrange(0, cs as int) + result@.subrange(cs + 1, ns as int)
            + result@.subrange(le as int, result@.len() as int));
        result = next;
        ss = cs + (ns - (cs + 1));
    }
}

/// Revert every `[text](block:target_uuid)` in content to plain `text`.
/// Returns (updated_content, count).
pub fn revert_refs_in_content(content: &str, target_uuid: u128) -> (r: (String, usize))
    requires
        reverted_links_from(content@, 0, target_uuid) is Some,
    ensures
        reverted_links_from(content@, 0, target_uuid) == Some((r.0@, r.1 as nat)),
{
    let needle = tail_chars(target_uuid);
    let mut result = chars_of(content);
    let n0 = result.len();
    let mut count: usize = 0;
    let mut ss: usize = 0;
    loop
        invariant
            needle@ == link_tail(target_uuid),
            ss <= result.len(),
            count + (result@.len() - ss) <= n0,
            reverted_links_from(result@, ss as int, target_uuid) is Some,
            ({
                let rest = reverted_links_from(result@, ss as int, target_uuid)->0;
                reverted_links_from(content@, 0, target_uuid) == Some((rest.0, (rest.1 + count) as nat))
            }),
        ensures
            reverted_links_from(content@, 0, target_uuid) == Some((result@, count as nat)),
        decreases result.len() - ss,
    {
        proof {
            lemma_find_from(result@, link_tail(target_uuid), ss as int);
        }
        let ns = match find_in(&result, &needle, ss) {
            None => {
                break;
            },
            Some(ns) => ns,
        };
        let le = ns + needle.len();
        let cs = match last_open_in(&result, ns) {
            Some(o) => o,
            None => 0,
        };
        proof {
            lemma_last_open(result@.subrange(0, ns as int));
        }
        let mut next: Vec<char> = Vec::new();
        extend_range(&mut next, &result, 0, cs);
        extend_range(&mut next, &result, cs + 1, ns);
        extend_range(&mut next, &result, le, result.len());
        assert(next@ =~= result@.subrange(0, cs as int) + result@.subrange(cs + 1, ns as int)
            + result@.subrange(le as int, result@.len() as int));
        result = next;
        count += 1;
        ss = cs + (ns - (cs + 1));
    }
    (string_of(&result), count)
}

/// Whether content holds at least one link to the given block.
pub fn content_references_block(content: &str, target_uuid: u128) -> (r: bool)
    ensures
        r == contains(content@, link_tail(target_uuid)),
{
    let v = chars_of(content);
    let needle = tail_chars(target_uuid);
    proof {
        lemma_find_from(v@, link_tail(target_uuid), 0);
    }
    match find_in(&v, &needle, 0) {
        Some(_) => true,
        None => {
            assert forall|j: int| !matches_at(v@, link_tail(target_uuid), j) by {
                if j < 0 {
                }
            }
            false
        },
    }
}

} // verus!
