//! What renaming does to a text: once every `[[old]]` is rewritten to `[[new]]` and
//! every `[old]: uuid:` annotation to `[new]: uuid:`, no `[[old]]` is left, for names
//! without brackets.

use vstd::prelude::*;

use crate::blocks::has_reserved_characters;
use crate::content::{annotation_prefix, inline_ref, renamed_content};
use crate::text::{
    contains, find_from, is_first_match_from, lemma_find_from, lemma_no_match_join, matches_at,
    replace_all, replace_from,
};

verus! {

/// The characters of `[[name]]` and where they are.
proof fn lemma_ref_chars(name: Seq<char>)
    ensures
        inline_ref(name).len() == name.len() + 4,
        inline_ref(name)[0] == '[',
        inline_ref(name)[1] == '[',
        forall|k: int| 0 <= k < name.len() ==> #[trigger] inline_ref(name)[k + 2] == name[k],
        inline_ref(name)[name.len() as int + 2] == ']',
        inline_ref(name)[name.len() as int + 3] == ']',
{
}

/// The characters of `[name]: uuid:` and where they are.
proof fn lemma_prefix_chars(name: Seq<char>)
    ensures
        annotation_prefix(name).len() == name.len() + 9,
        annotation_prefix(name)[0] == '[',
        forall|k: int| 0 <= k < name.len() ==> #[trigger] annotation_prefix(name)[k + 1] == name[k],
        annotation_prefix(name)[name.len() as int + 1] == ']',
        annotation_prefix(name)[name.len() as int + 2] == ':',
        forall|k: int|
            name.len() + 1 <= k < name.len() + 9 ==> #[trigger] annotation_prefix(name)[k] != '[',
{
}

/// A text without brackets has neither `'['` nor `']'` at any position.
proof fn lemma_no_bracket_at(name: Seq<char>, k: int)
    requires
        !has_reserved_characters(name),
        0 <= k < name.len(),
    ensures
        name[k] != '[',
        name[k] != ']',
{
    if name[k] == '[' || name[k] == ']' {
        assert(name.contains(name[k]));
    }
}

/// No `[[old]]` starts inside a `[[new]]` or runs into one, when the names differ and
/// have no brackets.
proof fn lemma_ref_touch(t: Seq<char>, y: int, x: int, old: Seq<char>, new: Seq<char>)
    requires
        !has_reserved_characters(old),
        !has_reserved_characters(new),
        old != new,
        0 <= y,
        y + inline_ref(new).len() <= t.len(),
        t.subrange(y, y + inline_ref(new).len()) == inline_ref(new),
        (x < y < x + inline_ref(old).len()) || (y <= x < y + inline_ref(new).len()),
    ensures
        !matches_at(t, inline_ref(old), x),
{
    let p = inline_ref(old);
    let q = inline_ref(new);
    lemma_ref_chars(old);
    lemma_ref_chars(new);
    if matches_at(t, p, x) {
        assert forall|k: int| 0 <= k < q.len() implies t[y + k] == #[trigger] q[k] by {
            assert(t.subrange(y, y + q.len())[k] == t[y + k]);
        }
        assert forall|k: int| 0 <= k < p.len() implies t[x + k] == #[trigger] p[k] by {
            assert(t.subrange(x, x + p.len())[k] == t[x + k]);
        }
        if x < y {
            let k = y - x;
            assert(t[y + 0] == q[0]);
            assert(t[x + k] == p[k]);
            if 2 <= k < 2 + old.len() {
                assert(p[(k - 2) + 2] == old[k - 2]);
                lemma_no_bracket_at(old, k - 2);
            }
            assert(k == 1);
            assert(t[y + 1] == q[1]);
            assert(t[x + 2] == p[2]);
            if old.len() > 0 {
                assert(p[0int + 2] == old[0]);
                lemma_no_bracket_at(old, 0);
            }
        } else {
            let z = x - y;
            assert(t[x + 0] == p[0]);
            assert(t[y + z] == q[z]);
            if 2 <= z < 2 + new.len() {
                assert(q[(z - 2) + 2] == new[z - 2]);
                lemma_no_bracket_at(new, z - 2);
            }
            if z == 1 {
                assert(t[y + 2] == q[2]);
                assert(t[x + 1] == p[1]);
                if new.len() > 0 {
                    assert(q[0int + 2] == new[0]);
                    lemma_no_bracket_at(new, 0);
                }
            }
            assert(z == 0);
            if old.len() == new.len() {
                assert forall|k: int| 0 <= k < old.len() implies old[k] == new[k] by {
                    assert(t[x + (k + 2)] == p[k + 2]);
                    assert(t[y + (k + 2)] == q[k + 2]);
                }
                assert(old =~= new);
            } else if old.len() < new.len() {
                let k = old.len() as int;
                assert(t[x + (k + 2)] == p[k + 2]);
                assert(t[y + (k + 2)] == q[k + 2]);
                lemma_no_bracket_at(new, k);
            } else {
                let k = new.len() as int;
                assert(t[x + (k + 2)] == p[k + 2]);
                assert(t[y + (k + 2)] == q[k + 2]);
                lemma_no_bracket_at(old, k);
            }
        }
    }
}

/// No `[[old]]` starts inside a `[new]: uuid:` or runs into one, for names without
/// brackets.
proof fn lemma_prefix_touch(t: Seq<char>, y: int, x: int, old: Seq<char>, new: Seq<char>)
    requires
        !has_reserved_characters(old),
        !has_reserved_characters(new),
        0 <= y,
        y + annotation_prefix(new).len() <= t.len(),
        t.subrange(y, y + annotation_prefix(new).len()) == annotation_prefix(new),
        (x < y < x + inline_ref(old).len()) || (y <= x < y + annotation_prefix(new).len()),
    ensures
        !matches_at(t, inline_ref(old), x),
{
    let p = inline_ref(old);
    let b = annotation_prefix(new);
    lemma_ref_chars(old);
    lemma_prefix_chars(new);
    if matches_at(t, p, x) {
        assert forall|k: int| 0 <= k < b.len() implies t[y + k] == #[trigger] b[k] by {
            assert(t.subrange(y, y + b.len())[k] == t[y + k]);
        }
        assert forall|k: int| 0 <= k < p.len() implies t[x + k] == #[trigger] p[k] by {
            assert(t.subrange(x, x + p.len())[k] == t[x + k]);
        }
        if x < y {
            let k = y - x;
            assert(t[y + 0] == b[0]);
            assert(t[x + k] == p[k]);
            if 2 <= k < 2 + old.len() {
                assert(p[(k - 2) + 2] == old[k - 2]);
                lemma_no_bracket_at(old, k - 2);
            }
            assert(k == 1);
            if old.len() < new.len() {
                let m = old.len() as int;
                assert(t[x + (m + 2)] == p[m + 2]);
                assert(t[y + (m + 1)] == b[m + 1]);
                lemma_no_bracket_at(new, m);
            } else if old.len() == new.len() {
                let m = old.len() as int;
                assert(t[x + (m + 3)] == p[m + 3]);
                assert(t[y + (m + 2)] == b[m + 2]);
            } else {
                let m = new.len() as int;
                assert(t[x + (m + 2)] == p[m + 2]);
                assert(t[y + (m + 1)] == b[m + 1]);
                assert(p[m + 2] == old[m]);
                lemma_no_bracket_at(old, m);
            }
        } else {
            let z = x - y;
            assert(t[x + 0] == p[0]);
            assert(t[y + z] == b[z]);
            if 1 <= z < 1 + new.len() {
                assert(b[(z - 1) + 1] == new[z - 1]);
                lemma_no_bracket_at(new, z - 1);
            }
            assert(z == 0);
            assert(t[x + 1] == p[1]);
            assert(t[y + 1] == b[1]);
            if new.len() > 0 {
                assert(b[0int + 1] == new[0]);
                lemma_no_bracket_at(new, 0);
            }
        }
    }
}

/// The replacement a rename makes: `[[old]]` to `[[new]]` in the first pass, the
/// annotation prefix in the second.
pub open spec fn rename_pattern(first: bool, name: Seq<char>) -> Seq<char> {
    if first {
        inline_ref(name)
    } else {
        annotation_prefix(name)
    }
}

/// A copy of the replacement cannot take part in a `[[old]]`.
proof fn lemma_touch(first: bool, t: Seq<char>, y: int, x: int, old: Seq<char>, new: Seq<char>)
    requires
        !has_reserved_characters(old),
        !has_reserved_characters(new),
        old != new,
        0 <= y,
        y + rename_pattern(first, new).len() <= t.len(),
        t.subrange(y, y + rename_pattern(first, new).len()) == rename_pattern(first, new),
        (x < y < x + inline_ref(old).len()) || (y <= x < y + rename_pattern(first, new).len()),
    ensures
        !matches_at(t, inline_ref(old), x),
{
    if first {
        lemma_ref_touch(t, y, x, old, new);
    } else {
        lemma_prefix_touch(t, y, x, old, new);
    }
}

/// A pass of a rename leaves no `[[old]]` in the text from position `i` on: in the first
/// pass because the occurrences are what it replaces, in the second because the text
/// had none.
proof fn lemma_pass_leaves_no_ref(s: Seq<char>, old: Seq<char>, new: Seq<char>, first: bool, i: int)
    requires
        !has_reserved_characters(old),
        !has_reserved_characters(new),
        old != new,
        0 <= i <= s.len(),
        first || !contains(s, inline_ref(old)),
    ensures
        !contains(
            replace_from(s, rename_pattern(first, old), rename_pattern(first, new), i),
            inline_ref(old),
        ),
    decreases s.len() - i,
{
    let a = rename_pattern(first, old);
    let b = rename_pattern(first, new);
    let p = inline_ref(old);
    lemma_ref_chars(old);
    lemma_prefix_chars(old);
    assert(a.len() > 0);
    lemma_find_from(s, a, i);
    match find_from(s, a, i) {
        None => {
            let r = s.subrange(i, s.len() as int);
            assert forall|x: int| !matches_at(r, p, x) by {
                if matches_at(r, p, x) {
                    assert(s.subrange(i + x, i + x + p.len()) =~= r.subrange(x, x + p.len()));
                    assert(matches_at(s, p, i + x));
                }
            }
        },
        Some(j) => {
            let seg = s.subrange(i, j);
            let rest = replace_from(s, a, b, j + a.len());
            lemma_pass_leaves_no_ref(s, old, new, first, j + a.len());
            assert forall|x: int| !matches_at(seg, p, x) by {
                if matches_at(seg, p, x) {
                    assert(s.subrange(i + x, i + x + p.len()) =~= seg.subrange(x, x + p.len()));
                    assert(matches_at(s, p, i + x));
                    if first {
                        assert(!matches_at(s, a, i + x));
                    }
                }
            }
            assert forall|x: int| !matches_at(b, p, x) by {
                if 0 <= x < b.len() {
                    assert(b.subrange(0, b.len() as int) =~= b);
                    lemma_touch(first, b, 0, x, old, new);
                }
            }
            let sb = seg + b;
            assert(sb.subrange(seg.len() as int, seg.len() + b.len() as int) =~= b);
            assert forall|x: int|
                0 <= x < seg.len() && seg.len() < x + p.len() <= seg.len() + b.len() implies !matches_at(
                sb,
                p,
                x,
            ) by {
                lemma_touch(first, sb, seg.len() as int, x, old, new);
            }
            lemma_no_match_join(seg, b, p);
            let whole = sb + rest;
            assert(whole.subrange(seg.len() as int, seg.len() + b.len() as int) =~= b);
            assert forall|x: int|
                0 <= x < sb.len() && sb.len() < x + p.len() <= sb.len() + rest.len() implies !matches_at(
                whole,
                p,
                x,
            ) by {
                lemma_touch(first, whole, seg.len() as int, x, old, new);
            }
            lemma_no_match_join(sb, rest, p);
        },
    }
}

/// After a rename's rewrite of a text, no `[[old]]` is left in it, when the two names
/// differ and neither has brackets.
pub proof fn lemma_renamed_content_has_no_old_ref(c: Seq<char>, old: Seq<char>, new: Seq<char>)
    requires
        !has_reserved_characters(old),
        !has_reserved_characters(new),
        old != new,
    ensures
        !contains(renamed_content(c, old, new), inline_ref(old)),
{
    lemma_pass_leaves_no_ref(c, old, new, true, 0);
    let once = replace_all(c, inline_ref(old), inline_ref(new));
    lemma_pass_leaves_no_ref(once, old, new, false, 0);
}

} // verus!
