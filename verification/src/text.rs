//! Character-sequence utilities shared by the content parsers.
//!
//! Strings are handled as sequences of `char`; every delimiter the format
//! uses is ASCII, so character positions and byte positions agree on where
//! a delimiter starts and ends.

use vstd::prelude::*;

verus! {

/// Unicode `White_Space` characters (what `char::is_whitespace` accepts).
pub open spec fn is_ws(c: char) -> bool {
    let u = c as u32;
    ||| u == 0x20 || (0x09 <= u && u <= 0x0D)
    ||| u == 0x85 || u == 0xA0 || u == 0x1680
    ||| (0x2000 <= u && u <= 0x200A)
    ||| u == 0x2028 || u == 0x2029 || u == 0x202F || u == 0x205F || u == 0x3000
}

pub fn char_is_ws(c: char) -> (r: bool)
    ensures
        r == is_ws(c),
{
    let u = c as u32;
    u == 0x20 || (0x09 <= u && u <= 0x0D) || u == 0x85 || u == 0xA0 || u == 0x1680 || (0x2000
        <= u && u <= 0x200A) || u == 0x2028 || u == 0x2029 || u == 0x202F || u == 0x205F || u
        == 0x3000
}

/// Leading whitespace removed.
pub open spec fn trim_start(s: Seq<char>) -> Seq<char>
    decreases s.len(),
{
    if s.len() > 0 && is_ws(s[0]) {
        trim_start(s.drop_first())
    } else {
        s
    }
}

/// Trailing whitespace removed.
pub open spec fn trim_end(s: Seq<char>) -> Seq<char>
    decreases s.len(),
{
    if s.len() > 0 && is_ws(s.last()) {
        trim_end(s.drop_last())
    } else {
        s
    }
}

/// Whitespace removed at both ends.
pub open spec fn trim(s: Seq<char>) -> Seq<char> {
    trim_end(trim_start(s))
}

/// All leading occurrences of `c` removed.
pub open spec fn strip_leading(s: Seq<char>, c: char) -> Seq<char>
    decreases s.len(),
{
    if s.len() > 0 && s[0] == c {
        strip_leading(s.drop_first(), c)
    } else {
        s
    }
}

/// `p` occurs in `s` starting at position `i`.
pub open spec fn matches_at(s: Seq<char>, p: Seq<char>, i: int) -> bool {
    0 <= i && i + p.len() <= s.len() && s.subrange(i, i + p.len()) == p
}

/// `p` is the first occurrence of the pattern at or after `from`.
pub open spec fn is_first_match_from(s: Seq<char>, p: Seq<char>, from: int, i: int) -> bool {
    from <= i && matches_at(s, p, i) && forall|j: int| from <= j < i ==> !matches_at(s, p, j)
}

/// Position of the first occurrence of `p` in `s` at or after `from`.
pub open spec fn find_from(s: Seq<char>, p: Seq<char>, from: int) -> Option<int> {
    if exists|i: int| is_first_match_from(s, p, from, i) {
        Some(choose|i: int| is_first_match_from(s, p, from, i))
    } else {
        None
    }
}

pub open spec fn contains(s: Seq<char>, p: Seq<char>) -> bool {
    exists|i: int| matches_at(s, p, i)
}

pub open spec fn starts_with(s: Seq<char>, p: Seq<char>) -> bool {
    matches_at(s, p, 0)
}

/// A match in `a + b` that lies in neither part crosses the join.
pub proof fn lemma_no_match_join(a: Seq<char>, b: Seq<char>, p: Seq<char>)
    requires
        !contains(a, p),
        !contains(b, p),
        forall|j: int|
            0 <= j < a.len() && a.len() < j + p.len() <= a.len() + b.len() ==> !matches_at(
                a + b,
                p,
                j,
            ),
    ensures
        !contains(a + b, p),
{
    assert forall|j: int| !matches_at(a + b, p, j) by {
        if matches_at(a + b, p, j) {
            if j + p.len() <= a.len() {
                assert((a + b).subrange(j, j + p.len()) =~= a.subrange(j, j + p.len()));
                assert(matches_at(a, p, j));
            } else if j >= a.len() {
                assert((a + b).subrange(j, j + p.len()) =~= b.subrange(
                    j - a.len(),
                    j - a.len() + p.len(),
                ));
                assert(matches_at(b, p, j - a.len()));
            }
        }
    }
}

/// The first minimal match is unique.
pub proof fn lemma_first_match_unique(s: Seq<char>, p: Seq<char>, from: int, i: int)
    requires
        is_first_match_from(s, p, from, i),
    ensures
        find_from(s, p, from) == Some(i),
{
    let j = choose|j: int| is_first_match_from(s, p, from, j);
    assert(is_first_match_from(s, p, from, j));
    if j < i {
        assert(!matches_at(s, p, j));
    }
    if i < j {
        assert(!matches_at(s, p, i));
    }
}

/// No match at or after `from` when none starts before the last candidate.
pub proof fn lemma_no_match(s: Seq<char>, p: Seq<char>, from: int)
    requires
        forall|j: int| from <= j && j + p.len() <= s.len() ==> !matches_at(s, p, j),
    ensures
        find_from(s, p, from) is None,
{
    if exists|i: int| is_first_match_from(s, p, from, i) {
        let i = choose|i: int| is_first_match_from(s, p, from, i);
        assert(matches_at(s, p, i));
    }
}

/// Index of the first `'\n'` at or after `i`, or the length when there is none.
pub open spec fn line_end(s: Seq<char>, i: int) -> int
    decreases s.len() - i,
{
    if i >= s.len() {
        s.len() as int
    } else if s[i] == '\n' {
        i
    } else {
        line_end(s, i + 1)
    }
}

pub proof fn lemma_line_end(s: Seq<char>, i: int)
    requires
        0 <= i <= s.len(),
    ensures
        i <= line_end(s, i) <= s.len(),
        line_end(s, i) < s.len() ==> s[line_end(s, i)] == '\n',
        forall|j: int| i <= j < line_end(s, i) ==> s[j] != '\n',
    decreases s.len() - i,
{
    if i < s.len() && s[i] != '\n' {
        lemma_line_end(s, i + 1);
    }
}

/// The lines of `s` from position `start` on, as `str::lines` yields them: split at
/// `'\n'`, a `'\r'` before the `'\n'` dropped, no empty line after a final `'\n'`.
pub open spec fn lines_from(s: Seq<char>, start: int) -> Seq<Seq<char>>
    decreases s.len() - start,
{
    if start < 0 || start >= s.len() {
        Seq::empty()
    } else {
        proof {
            lemma_line_end(s, start);
        }
        let e = line_end(s, start);
        let raw = s.subrange(start, e);
        let line = if e < s.len() && raw.len() > 0 && raw.last() == '\r' {
            raw.drop_last()
        } else {
            raw
        };
        if e < s.len() {
            seq![line] + lines_from(s, e + 1)
        } else {
            seq![line]
        }
    }
}

/// The lines of `s` (`str::lines`).
pub open spec fn lines(s: Seq<char>) -> Seq<Seq<char>> {
    lines_from(s, 0)
}

/// End of the current line's text: before the `'\r'` of a `"\r\n"` ending.
pub open spec fn line_text_end(s: Seq<char>, start: int, e: int) -> int {
    if e < s.len() && e > start && s[e - 1] == '\r' {
        e - 1
    } else {
        e
    }
}

pub proof fn lemma_lines_from_unfold(s: Seq<char>, start: int)
    requires
        0 <= start < s.len(),
    ensures
        line_end(s, start) < s.len() ==> lines_from(s, start) == seq![
            s.subrange(start, line_text_end(s, start, line_end(s, start))),
        ] + lines_from(s, line_end(s, start) + 1),
        line_end(s, start) == s.len() ==> lines_from(s, start) == seq![
            s.subrange(start, line_text_end(s, start, line_end(s, start))),
        ],
        lines_from(s, start).len() > 0,
        lines_from(s, start)[0] == s.subrange(start, line_text_end(s, start, line_end(s, start))),
        lines_from(s, start).drop_first() == lines_from(s, line_end(s, start) + 1),
{
    lemma_line_end(s, start);
    let e = line_end(s, start);
    let raw = s.subrange(start, e);
    if e < s.len() && raw.len() > 0 && raw.last() == '\r' {
        assert(raw.drop_last() =~= s.subrange(start, e - 1));
    }
    if e == s.len() {
        assert(lines_from(s, e + 1) =~= Seq::<Seq<char>>::empty());
    }
    assert(lines_from(s, start) == seq![s.subrange(start, line_text_end(s, start, e))]
        + lines_from(s, e + 1));
    assert((seq![s.subrange(start, line_text_end(s, start, e))] + lines_from(s, e + 1)).drop_first()
        =~= lines_from(s, e + 1));
}

/// Position of the next `'\n'` at or after `start`, or the length.
pub fn next_line_end(v: &Vec<char>, start: usize) -> (e: usize)
    requires
        start <= v.len(),
    ensures
        e == line_end(v@, start as int),
        start <= e <= v.len(),
{
    proof {
        lemma_line_end(v@, start as int);
    }
    let mut i = start;
    while i < v.len()
        invariant
            start <= i <= v.len(),
            line_end(v@, i as int) == line_end(v@, start as int),
        decreases v.len() - i,
    {
        if v[i] == '\n' {
            return i;
        }
        i += 1;
    }
    i
}

/// End of the text of the line `v[start..e]` (a `'\r'` before the `'\n'` excluded).
pub fn text_end(v: &Vec<char>, start: usize, e: usize) -> (r: usize)
    requires
        start <= e <= v.len(),
    ensures
        r == line_text_end(v@, start as int, e as int),
        start <= r <= e,
{
    if e < v.len() && e > start && v[e - 1] == '\r' {
        e - 1
    } else {
        e
    }
}

/// Bounds of `v[lo..hi]` with leading whitespace removed.
pub fn trim_start_bounds(v: &Vec<char>, lo: usize, hi: usize) -> (a: usize)
    requires
        lo <= hi <= v.len(),
    ensures
        lo <= a <= hi,
        v@.subrange(a as int, hi as int) == trim_start(v@.subrange(lo as int, hi as int)),
{
    let mut a = lo;
    while a < hi && char_is_ws(v[a])
        invariant
            lo <= a <= hi <= v.len(),
            trim_start(v@.subrange(a as int, hi as int)) == trim_start(
                v@.subrange(lo as int, hi as int),
            ),
        decreases hi - a,
    {
        assert(v@.subrange(a as int, hi as int).drop_first() =~= v@.subrange(a + 1, hi as int));
        a += 1;
    }
    a
}

/// Bounds of `v[lo..hi]` with trailing whitespace removed.
pub fn trim_end_bounds(v: &Vec<char>, lo: usize, hi: usize) -> (b: usize)
    requires
        lo <= hi <= v.len(),
    ensures
        lo <= b <= hi,
        v@.subrange(lo as int, b as int) == trim_end(v@.subrange(lo as int, hi as int)),
{
    let mut b = hi;
    while b > lo && char_is_ws(v[b - 1])
        invariant
            lo <= b <= hi <= v.len(),
            trim_end(v@.subrange(lo as int, b as int)) == trim_end(
                v@.subrange(lo as int, hi as int),
            ),
        decreases b - lo,
    {
        assert(v@.subrange(lo as int, b as int).drop_last() =~= v@.subrange(lo as int, b - 1));
        b -= 1;
    }
    b
}

/// Bounds of `v[lo..hi]` with whitespace removed at both ends.
pub fn trim_bounds(v: &Vec<char>, lo: usize, hi: usize) -> (r: (usize, usize))
    requires
        lo <= hi <= v.len(),
    ensures
        lo <= r.0 <= r.1 <= hi,
        v@.subrange(r.0 as int, r.1 as int) == trim(v@.subrange(lo as int, hi as int)),
{
    let a = trim_start_bounds(v, lo, hi);
    let b = trim_end_bounds(v, a, hi);
    (a, b)
}

pub proof fn lemma_find_from(s: Seq<char>, p: Seq<char>, from: int)
    ensures
        find_from(s, p, from) matches Some(i) ==> is_first_match_from(s, p, from, i),
        find_from(s, p, from) is None ==> forall|j: int| from <= j ==> !matches_at(s, p, j),
{
    if find_from(s, p, from) is None {
        assert forall|j: int| from <= j implies !matches_at(s, p, j) by {
            if matches_at(s, p, j) {
                lemma_first_match_exists(s, p, from, j);
            }
        }
    }
}

/// A match at or after `from` means a first such match.
pub proof fn lemma_first_match_exists(s: Seq<char>, p: Seq<char>, from: int, j: int)
    requires
        from <= j,
        matches_at(s, p, j),
    ensures
        exists|i: int| is_first_match_from(s, p, from, i),
    decreases j - from,
{
    if forall|k: int| from <= k < j ==> !matches_at(s, p, k) {
        assert(is_first_match_from(s, p, from, j));
    } else {
        let k = choose|k: int| from <= k < j && matches_at(s, p, k);
        lemma_first_match_exists(s, p, from, k);
    }
}

/// `s[i..]` with every occurrence of `p` (left to right, not overlapping) replaced by
/// `q`, as `str::replace` does.
pub open spec fn replace_from(s: Seq<char>, p: Seq<char>, q: Seq<char>, i: int) -> Seq<char>
    decreases s.len() - i,
{
    if p.len() == 0 || i < 0 || i > s.len() {
        s
    } else {
        match find_from(s, p, i) {
            None => s.subrange(i, s.len() as int),
            Some(j) => {
                proof {
                    lemma_find_from(s, p, i);
                }
                s.subrange(i, j) + q + replace_from(s, p, q, j + p.len())
            },
        }
    }
}

/// Number of occurrences of `p` in `s[i..]` (left to right, not overlapping).
pub open spec fn count_from(s: Seq<char>, p: Seq<char>, i: int) -> nat
    decreases s.len() - i,
{
    if p.len() == 0 || i < 0 || i > s.len() {
        0
    } else {
        match find_from(s, p, i) {
            None => 0,
            Some(j) => {
                proof {
                    lemma_find_from(s, p, i);
                }
                1 + count_from(s, p, j + p.len())
            },
        }
    }
}

pub open spec fn replace_all(s: Seq<char>, p: Seq<char>, q: Seq<char>) -> Seq<char> {
    replace_from(s, p, q, 0)
}

pub open spec fn count_all(s: Seq<char>, p: Seq<char>) -> nat {
    count_from(s, p, 0)
}

/// `v` with every occurrence of `p` replaced by `q`, and the number of occurrences.
pub fn replace_count(v: &Vec<char>, p: &Vec<char>, q: &Vec<char>) -> (r: (Vec<char>, usize))
    requires
        p.len() > 0,
    ensures
        r.0@ == replace_all(v@, p@, q@),
        r.1 == count_all(v@, p@),
{
    let mut out: Vec<char> = Vec::new();
    let mut n: usize = 0;
    let mut i: usize = 0;
    loop
        invariant
            p.len() > 0,
            i <= v.len(),
            n <= i,
            out@ + replace_from(v@, p@, q@, i as int) == replace_all(v@, p@, q@),
            n + count_from(v@, p@, i as int) == count_all(v@, p@),
        decreases v.len() - i,
    {
        proof {
            lemma_find_from(v@, p@, i as int);
        }
        match find_in(v, p, i) {
            None => {
                let ghost before = out@;
                extend_range(&mut out, v, i, v.len());
                return (out, n);
            },
            Some(j) => {
                let ghost before = out@;
                extend_range(&mut out, v, i, j);
                extend_all(&mut out, q);
                assert(before + replace_from(v@, p@, q@, i as int) == out@ + replace_from(
                    v@,
                    p@,
                    q@,
                    j + p.len(),
                ));
                n += 1;
                i = j + p.len();
            },
        }
    }
}

/// Lines joined with `'\n'` between them (`join("\n")`).
pub open spec fn join_lines(ls: Seq<Seq<char>>) -> Seq<char>
    decreases ls.len(),
{
    if ls.len() == 0 {
        Seq::empty()
    } else if ls.len() == 1 {
        ls[0]
    } else {
        ls[0] + seq!['\n'] + join_lines(ls.drop_first())
    }
}

pub proof fn lemma_join_push(ls: Seq<Seq<char>>, l: Seq<char>)
    ensures
        ls.len() == 0 ==> join_lines(ls.push(l)) == l,
        ls.len() > 0 ==> join_lines(ls.push(l)) == join_lines(ls) + seq!['\n'] + l,
    decreases ls.len(),
{
    if ls.len() == 0 {
        assert(ls.push(l).len() == 1);
    } else if ls.len() == 1 {
        assert(ls.push(l).drop_first() =~= seq![l]);
        assert(join_lines(seq![l]) == l);
    } else {
        lemma_join_push(ls.drop_first(), l);
        assert(ls.push(l).drop_first() =~= ls.drop_first().push(l));
    }
}

/// Whether some entry of an association list has key `k`.
pub open spec fn assoc_has<V>(s: Seq<(Seq<char>, V)>, k: Seq<char>) -> bool {
    exists|i: int| 0 <= i < s.len() && s[i].0 == k
}

/// The value stored under `k`, if any.
pub open spec fn assoc_get<V>(s: Seq<(Seq<char>, V)>, k: Seq<char>) -> Option<V> {
    if assoc_has(s, k) {
        Some(s[choose|i: int| 0 <= i < s.len() && s[i].0 == k].1)
    } else {
        None
    }
}

/// No key occurs twice.
pub open spec fn keys_unique<V>(s: Seq<(Seq<char>, V)>) -> bool {
    forall|i: int, j: int| 0 <= i < s.len() && 0 <= j < s.len() && i != j ==> s[i].0 != s[j].0
}

/// Insert or replace: an existing entry keeps its position and takes the new value,
/// a new key goes at the end.
pub open spec fn assoc_put<V>(s: Seq<(Seq<char>, V)>, k: Seq<char>, v: V) -> Seq<(Seq<char>, V)> {
    if assoc_has(s, k) {
        s.update(choose|i: int| 0 <= i < s.len() && s[i].0 == k, (k, v))
    } else {
        s.push((k, v))
    }
}

/// The association list built by putting the entries in order (a later entry for a key
/// replaces an earlier one).
pub open spec fn assoc_build<V>(e: Seq<(Seq<char>, V)>) -> Seq<(Seq<char>, V)>
    decreases e.len(),
{
    if e.len() == 0 {
        Seq::empty()
    } else {
        assoc_put(assoc_build(e.drop_last()), e.last().0, e.last().1)
    }
}

pub open spec fn pairs_view<V>(v: Seq<(String, V)>) -> Seq<(Seq<char>, V)> {
    v.map_values(|p: (String, V)| (p.0@, p.1))
}

pub open spec fn string_pairs_view(v: Seq<(String, String)>) -> Seq<(Seq<char>, Seq<char>)> {
    v.map_values(|p: (String, String)| (p.0@, p.1@))
}

pub proof fn lemma_assoc_put_unique<V>(s: Seq<(Seq<char>, V)>, k: Seq<char>, v: V)
    requires
        keys_unique(s),
    ensures
        keys_unique(assoc_put(s, k, v)),
        assoc_has(assoc_put(s, k, v), k),
{
    if assoc_has(s, k) {
        let i = choose|i: int| 0 <= i < s.len() && s[i].0 == k;
        assert(assoc_put(s, k, v)[i].0 == k);
    } else {
        assert(assoc_put(s, k, v)[s.len() as int].0 == k);
    }
}

pub proof fn lemma_assoc_build_unique<V>(e: Seq<(Seq<char>, V)>)
    ensures
        keys_unique(assoc_build(e)),
    decreases e.len(),
{
    if e.len() > 0 {
        lemma_assoc_build_unique(e.drop_last());
        lemma_assoc_put_unique(assoc_build(e.drop_last()), e.last().0, e.last().1);
    }
}

/// Puts `(k, v)` into an association list of strings to 128-bit values.
pub fn assoc_set_id(out: &mut Vec<(String, u128)>, k: String, v: u128)
    requires
        keys_unique(pairs_view(old(out)@)),
    ensures
        pairs_view(final(out)@) == assoc_put(pairs_view(old(out)@), k@, v),
        keys_unique(pairs_view(final(out)@)),
{
    let ghost s = pairs_view(out@);
    proof {
        lemma_assoc_put_unique(s, k@, v);
    }
    let mut i: usize = 0;
    while i < out.len()
        invariant
            i <= out.len(),
            s == pairs_view(out@),
            s == pairs_view(old(out)@),
            keys_unique(s),
            forall|j: int| 0 <= j < i ==> s[j].0 != k@,
        decreases out.len() - i,
    {
        if out[i].0 == k {
            assert(s[i as int].0 == k@);
            let ghost ci = choose|j: int| 0 <= j < s.len() && s[j].0 == k@;
            assert(ci == i) by {
                if ci != i {
                    assert(s[ci].0 == s[i as int].0);
                }
            }
            out.set(i, (k, v));
            assert(pairs_view(out@) =~= s.update(i as int, (k@, v)));
            return;
        }
        i += 1;
    }
    out.push((k, v));
    assert(pairs_view(out@) =~= s.push((k@, v)));
}

/// Puts `(k, v)` into an association list of strings to strings.
pub fn assoc_set_text(out: &mut Vec<(String, String)>, k: String, v: String)
    requires
        keys_unique(string_pairs_view(old(out)@)),
    ensures
        string_pairs_view(final(out)@) == assoc_put(string_pairs_view(old(out)@), k@, v@),
        keys_unique(string_pairs_view(final(out)@)),
{
    let ghost s = string_pairs_view(out@);
    proof {
        lemma_assoc_put_unique(s, k@, v@);
    }
    let mut i: usize = 0;
    while i < out.len()
        invariant
            i <= out.len(),
            s == string_pairs_view(out@),
            s == string_pairs_view(old(out)@),
            keys_unique(s),
            forall|j: int| 0 <= j < i ==> s[j].0 != k@,
        decreases out.len() - i,
    {
        if out[i].0 == k {
            assert(s[i as int].0 == k@);
            let ghost ci = choose|j: int| 0 <= j < s.len() && s[j].0 == k@;
            assert(ci == i) by {
                if ci != i {
                    assert(s[ci].0 == s[i as int].0);
                }
            }
            let ghost vv = v@;
            out.set(i, (k, v));
            assert(string_pairs_view(out@) =~= s.update(i as int, (k@, vv)));
            return;
        }
        i += 1;
    }
    let ghost kv = (k@, v@);
    out.push((k, v));
    assert(string_pairs_view(out@) =~= s.push(kv));
}

/// What `str::to_lowercase` gives for a text: its Unicode lowercase mapping.
pub uninterp spec fn lowercase(s: Seq<char>) -> Seq<char>;

/// `str::to_lowercase`: claimed to be `lowercase(s)`.
#[verifier::external_body]
pub(crate) fn to_lower(s: &str) -> (r: String)
    ensures
        r@ == lowercase(s@),
{
    s.to_lowercase()
}

/// The elements of `s` that satisfy `f`, in order.
pub open spec fn keep<A>(s: Seq<A>, f: spec_fn(A) -> bool) -> Seq<A>
    decreases s.len(),
{
    if s.len() == 0 {
        Seq::empty()
    } else {
        let r = keep(s.drop_last(), f);
        if f(s.last()) {
            r.push(s.last())
        } else {
            r
        }
    }
}

/// `i` is the first position of an element satisfying `f`.
pub open spec fn is_first_where<A>(s: Seq<A>, f: spec_fn(A) -> bool, i: int) -> bool {
    0 <= i < s.len() && f(s[i]) && forall|j: int| 0 <= j < i ==> !f(s[j])
}

/// The first element satisfying `f`.
pub open spec fn first_where<A>(s: Seq<A>, f: spec_fn(A) -> bool) -> Option<A> {
    if exists|i: int| is_first_where(s, f, i) {
        Some(s[choose|i: int| is_first_where(s, f, i)])
    } else {
        None
    }
}

pub proof fn lemma_first_where_found<A>(s: Seq<A>, f: spec_fn(A) -> bool, i: int)
    requires
        is_first_where(s, f, i),
    ensures
        first_where(s, f) == Some(s[i]),
{
    let k = choose|k: int| is_first_where(s, f, k);
    assert(is_first_where(s, f, k));
    if k < i {
        assert(!f(s[k]));
    }
    if i < k {
        assert(!f(s[i]));
    }
}

pub proof fn lemma_first_where_absent<A>(s: Seq<A>, f: spec_fn(A) -> bool)
    requires
        forall|j: int| 0 <= j < s.len() ==> !f(s[j]),
    ensures
        first_where(s, f) is None,
{
    if exists|i: int| is_first_where(s, f, i) {
        let k = choose|k: int| is_first_where(s, f, k);
        assert(f(s[k]));
    }
}

/// The characters of a string slice.
pub fn chars_of(s: &str) -> (r: Vec<char>)
    ensures
        r@ == s@,
{
    let mut r: Vec<char> = Vec::new();
    for c in it: s.chars()
        invariant
            it.seq() == s@,
            r@ == it.seq().subrange(0, it.index() as int),
    {
        r.push(c);
    }
    r
}

/// Appends one character to a string (`String::push`).
#[verifier::external_body]
pub(crate) fn push_char(s: &mut String, c: char)
    ensures
        final(s)@ == old(s)@.push(c),
{
    s.push(c);
}

/// The string made of `v[lo..hi]`.
pub fn string_of_range(v: &Vec<char>, lo: usize, hi: usize) -> (r: String)
    requires
        lo <= hi <= v.len(),
    ensures
        r@ == v@.subrange(lo as int, hi as int),
{
    let mut r = String::new();
    let mut i = lo;
    while i < hi
        invariant
            lo <= i <= hi <= v.len(),
            r@ == v@.subrange(lo as int, i as int),
        decreases hi - i,
    {
        push_char(&mut r, v[i]);
        assert(v@.subrange(lo as int, i + 1) == v@.subrange(lo as int, i as int).push(v@[i as int]));
        i += 1;
    }
    r
}

/// The string made of all of `v`.
pub fn string_of(v: &Vec<char>) -> (r: String)
    ensures
        r@ == v@,
{
    let r = string_of_range(v, 0, v.len());
    assert(v@.subrange(0, v@.len() as int) == v@);
    r
}

/// Appends `v[lo..hi]` to a character vector.
pub fn extend_range(out: &mut Vec<char>, v: &Vec<char>, lo: usize, hi: usize)
    requires
        lo <= hi <= v.len(),
    ensures
        final(out)@ == old(out)@ + v@.subrange(lo as int, hi as int),
{
    let mut i = lo;
    while i < hi
        invariant
            lo <= i <= hi <= v.len(),
            out@ == old(out)@ + v@.subrange(lo as int, i as int),
        decreases hi - i,
    {
        out.push(v[i]);
        assert(v@.subrange(lo as int, i + 1) == v@.subrange(lo as int, i as int).push(v@[i as int]));
        i += 1;
    }
}

/// Appends all of `w` to a character vector.
pub fn extend_all(out: &mut Vec<char>, w: &Vec<char>)
    ensures
        final(out)@ == old(out)@ + w@,
{
    extend_range(out, w, 0, w.len());
    assert(w@.subrange(0, w@.len() as int) == w@);
}

/// Whether `p` occurs in `v` at position `i`.
pub fn match_at(v: &Vec<char>, p: &Vec<char>, i: usize) -> (r: bool)
    ensures
        r == matches_at(v@, p@, i as int),
{
    if i > v.len() || p.len() > v.len() - i {
        return false;
    }
    let mut k: usize = 0;
    while k < p.len()
        invariant
            i + p.len() <= v.len(),
            k <= p.len(),
            forall|j: int| 0 <= j < k ==> v@[i + j] == p@[j],
        decreases p.len() - k,
    {
        if v[i + k] != p[k] {
            assert(v@.subrange(i as int, i + p.len())[k as int] != p@[k as int]);
            return false;
        }
        k += 1;
    }
    assert(v@.subrange(i as int, i + p.len()) =~= p@);
    true
}

/// First occurrence of `p` in `v` at or after `from`.
pub fn find_in(v: &Vec<char>, p: &Vec<char>, from: usize) -> (r: Option<usize>)
    requires
        from <= v.len(),
    ensures
        r matches Some(i) ==> find_from(v@, p@, from as int) == Some(i as int),
        r is None ==> find_from(v@, p@, from as int) is None,
{
    let mut i = from;
    while i <= v.len() && p.len() <= v.len() - i
        invariant
            from <= i <= v.len(),
            forall|j: int| from <= j < i ==> !matches_at(v@, p@, j),
        ensures
            forall|j: int| from <= j && j + p.len() <= v.len() ==> !matches_at(v@, p@, j),
        decreases v.len() + 1 - i,
    {
        if match_at(v, p, i) {
            proof {
                lemma_first_match_unique(v@, p@, from as int, i as int);
            }
            return Some(i);
        }
        if i == v.len() {
            break;
        }
        i += 1;
    }
    proof {
        lemma_no_match(v@, p@, from as int);
    }
    None
}

/// The predicate "the entry's key is `k`".
pub open spec fn key_is<V>(k: Seq<char>) -> spec_fn((Seq<char>, V)) -> bool {
    |p: (Seq<char>, V)| p.0 == k
}

/// The value of the first entry with key `k`, if any.
pub open spec fn assoc_first<V>(s: Seq<(Seq<char>, V)>, k: Seq<char>) -> Option<V> {
    match first_where(s, key_is(k)) {
        Some(p) => Some(p.1),
        None => None,
    }
}

/// The value of the first entry of `v` whose key is `k`.
pub fn assoc_find(v: &Vec<(String, u128)>, k: &str) -> (r: Option<u128>)
    ensures
        r == assoc_first(pairs_view(v@), k@),
{
    let ghost s = pairs_view(v@);
    let ghost f = key_is::<u128>(k@);
    let key = k.to_owned();
    let mut i: usize = 0;
    while i < v.len()
        invariant
            i <= v.len(),
            s == pairs_view(v@),
            f == key_is::<u128>(k@),
            key@ == k@,
            forall|j: int| 0 <= j < i ==> !f(s[j]),
        decreases v.len() - i,
    {
        if v[i].0 == key {
            proof {
                lemma_first_where_found(s, f, i as int);
            }
            return Some(v[i].1);
        }
        i += 1;
    }
    proof {
        lemma_first_where_absent(s, f);
    }
    None
}

/// `a`, then `b`, then `c`, as one string.
pub fn concat3(a: &str, b: &str, c: &str) -> (r: String)
    ensures
        r@ == a@ + b@ + c@,
{
    let mut v = chars_of(a);
    let bv = chars_of(b);
    let cv = chars_of(c);
    extend_all(&mut v, &bv);
    extend_all(&mut v, &cv);
    string_of(&v)
}

/// Some element satisfies `f`, so there is a first one.
pub proof fn lemma_first_where_exists<A>(s: Seq<A>, f: spec_fn(A) -> bool, j: int)
    requires
        0 <= j < s.len(),
        f(s[j]),
    ensures
        exists|i: int| is_first_where(s, f, i),
    decreases j,
{
    if forall|k: int| 0 <= k < j ==> !f(s[k]) {
        assert(is_first_where(s, f, j));
    } else {
        let k = choose|k: int| 0 <= k < j && f(s[k]);
        lemma_first_where_exists(s, f, k);
    }
}

/// No first element satisfies `f`: none does.
pub proof fn lemma_first_where_none<A>(s: Seq<A>, f: spec_fn(A) -> bool)
    requires
        first_where(s, f) is None,
    ensures
        forall|i: int| 0 <= i < s.len() ==> !f(#[trigger] s[i]),
{
    assert forall|i: int| 0 <= i < s.len() implies !f(#[trigger] s[i]) by {
        if f(s[i]) {
            lemma_first_where_exists(s, f, i);
        }
    }
}

pub proof fn lemma_first_where_concat<A>(a: Seq<A>, b: Seq<A>, f: spec_fn(A) -> bool)
    ensures
        first_where(a + b, f) == (if first_where(a, f) is Some {
            first_where(a, f)
        } else {
            first_where(b, f)
        }),
{
    if first_where(a, f) is Some {
        let i = choose|i: int| is_first_where(a, f, i);
        assert(is_first_where(a + b, f, i));
        lemma_first_where_found(a + b, f, i);
    } else {
        lemma_first_where_none(a, f);
        if first_where(b, f) is Some {
            let j = choose|j: int| is_first_where(b, f, j);
            assert((a + b)[a.len() + j] == b[j]);
            assert forall|k: int| 0 <= k < a.len() + j implies !f((a + b)[k]) by {
                if k < a.len() {
                    assert((a + b)[k] == a[k]);
                } else {
                    assert((a + b)[k] == b[k - a.len()]);
                }
            }
            assert(is_first_where(a + b, f, a.len() + j));
            lemma_first_where_found(a + b, f, a.len() + j);
        } else {
            lemma_first_where_none(b, f);
            assert forall|k: int| 0 <= k < (a + b).len() implies !f((a + b)[k]) by {
                if k < a.len() {
                    assert((a + b)[k] == a[k]);
                } else {
                    assert((a + b)[k] == b[k - a.len()]);
                }
            }
            lemma_first_where_absent(a + b, f);
        }
    }
}

pub proof fn lemma_first_where_push<A>(s: Seq<A>, x: A, f: spec_fn(A) -> bool)
    ensures
        first_where(s.push(x), f) == (if first_where(s, f) is Some {
            first_where(s, f)
        } else if f(x) {
            Some(x)
        } else {
            None
        }),
{
    lemma_first_where_concat(s, seq![x], f);
    assert(s + seq![x] =~= s.push(x));
    if f(x) {
        assert(is_first_where(seq![x], f, 0));
        lemma_first_where_found(seq![x], f, 0);
    } else {
        lemma_first_where_absent(seq![x], f);
    }
}

/// Filtering with a test that every `f`-element passes keeps the first `f`-element.
pub proof fn lemma_first_where_keep<A>(s: Seq<A>, g: spec_fn(A) -> bool, f: spec_fn(A) -> bool)
    requires
        forall|x: A| #[trigger] f(x) ==> g(x),
    ensures
        first_where(keep(s, g), f) == first_where(s, f),
    decreases s.len(),
{
    if s.len() == 0 {
        lemma_first_where_absent(keep(s, g), f);
        lemma_first_where_absent(s, f);
    } else {
        lemma_first_where_keep(s.drop_last(), g, f);
        lemma_first_where_push(s.drop_last(), s.last(), f);
        assert(s.drop_last().push(s.last()) =~= s);
        if g(s.last()) {
            lemma_first_where_push(keep(s.drop_last(), g), s.last(), f);
        }
    }
}

/// Filtering with a test that no `f`-element passes leaves no `f`-element.
pub proof fn lemma_first_where_keep_none<A>(s: Seq<A>, g: spec_fn(A) -> bool, f: spec_fn(A) -> bool)
    requires
        forall|x: A| #[trigger] f(x) ==> !g(x),
    ensures
        first_where(keep(s, g), f) is None,
    decreases s.len(),
{
    if s.len() == 0 {
        lemma_first_where_absent(keep(s, g), f);
    } else {
        lemma_first_where_keep_none(s.drop_last(), g, f);
        if g(s.last()) {
            lemma_first_where_push(keep(s.drop_last(), g), s.last(), f);
        }
    }
}

/// Replacing an element that does not satisfy `f` by another that does not either keeps
/// the first `f`-element.
pub proof fn lemma_first_where_update<A>(s: Seq<A>, i: int, x: A, f: spec_fn(A) -> bool)
    requires
        0 <= i < s.len(),
        !f(s[i]),
        !f(x),
    ensures
        first_where(s.update(i, x), f) == first_where(s, f),
{
    let t = s.update(i, x);
    if first_where(s, f) is Some {
        let j = choose|j: int| is_first_where(s, f, j);
        assert(is_first_where(t, f, j));
        lemma_first_where_found(t, f, j);
    } else {
        lemma_first_where_none(s, f);
        assert forall|k: int| 0 <= k < t.len() implies !f(t[k]) by {
            if k != i {
                assert(t[k] == s[k]);
            }
        }
        lemma_first_where_absent(t, f);
    }
}

/// Every element of `s` before another stands in relation `r` to it.
pub open spec fn pairwise<A>(s: Seq<A>, r: spec_fn(A, A) -> bool) -> bool {
    forall|i: int, j: int| 0 <= i < j < s.len() ==> #[trigger] r(s[i], s[j])
}

/// Every element that `keep` retains is an element of the sequence that passes the test.
pub proof fn lemma_keep_members<A>(s: Seq<A>, f: spec_fn(A) -> bool)
    ensures
        forall|j: int|
            0 <= j < keep(s, f).len() ==> f(#[trigger] keep(s, f)[j]) && exists|i: int|
                0 <= i < s.len() && s[i] == keep(s, f)[j],
    decreases s.len(),
{
    if s.len() > 0 {
        lemma_keep_members(s.drop_last(), f);
        let k0 = keep(s.drop_last(), f);
        assert forall|j: int| 0 <= j < keep(s, f).len() implies f(#[trigger] keep(s, f)[j]) && exists|i: int|
            0 <= i < s.len() && s[i] == keep(s, f)[j] by {
            if j < k0.len() {
                assert(keep(s, f)[j] == k0[j]);
                let i = choose|i: int| 0 <= i < s.drop_last().len() && s.drop_last()[i] == k0[j];
                assert(s[i] == s.drop_last()[i]);
            } else {
                assert(keep(s, f)[j] == s.last());
                assert(s[s.len() - 1] == s.last());
            }
        }
    }
}

/// Every element of the sequence that passes the test is retained by `keep`.
pub proof fn lemma_keep_complete<A>(s: Seq<A>, f: spec_fn(A) -> bool, i: int)
    requires
        0 <= i < s.len(),
        f(s[i]),
    ensures
        exists|j: int| 0 <= j < keep(s, f).len() && keep(s, f)[j] == s[i],
    decreases s.len(),
{
    let k0 = keep(s.drop_last(), f);
    if i == s.len() - 1 {
        assert(keep(s, f)[k0.len() as int] == s[i]);
    } else {
        assert(s.drop_last()[i] == s[i]);
        lemma_keep_complete(s.drop_last(), f, i);
        let j = choose|j: int| 0 <= j < k0.len() && k0[j] == s[i];
        assert(keep(s, f)[j] == k0[j]);
    }
}

/// Filtering keeps the relative order of elements.
pub proof fn lemma_keep_pairwise<A>(s: Seq<A>, f: spec_fn(A) -> bool, r: spec_fn(A, A) -> bool)
    requires
        pairwise(s, r),
    ensures
        pairwise(keep(s, f), r),
    decreases s.len(),
{
    if s.len() > 0 {
        let d = s.drop_last();
        assert(pairwise(d, r)) by {
            assert forall|i: int, j: int| 0 <= i < j < d.len() implies #[trigger] r(d[i], d[j]) by {
                assert(d[i] == s[i] && d[j] == s[j]);
            }
        }
        lemma_keep_pairwise(d, f, r);
        lemma_keep_members(d, f);
        let k0 = keep(d, f);
        let k = keep(s, f);
        assert forall|i: int, j: int| 0 <= i < j < k.len() implies #[trigger] r(k[i], k[j]) by {
            if j < k0.len() {
                assert(k[i] == k0[i] && k[j] == k0[j]);
            } else {
                assert(k[i] == k0[i]);
                assert(k[j] == s.last());
                let p = choose|p: int| 0 <= p < d.len() && d[p] == k0[i];
                assert(r(s[p], s[s.len() - 1]));
            }
        }
    }
}

} // verus!
