//! The markdown block file format: a metadata comment followed by the body.
//!
//! ```text
//! <!--
//! id: <uuid>
//! name: <human-readable name>
//! created: <rfc 3339>
//! modified: <rfc 3339>
//! -->
//!
//! <content>
//! ```

use vstd::prelude::*;

use crate::ids::{format_uuid, parse_uuid, uuid_parse, uuid_text};
use crate::text::{
    assoc_build, assoc_get, assoc_set_text, chars_of, contains, extend_all, extend_range,
    find_from, find_in, keys_unique, lemma_find_from, lemma_lines_from_unfold, lines, lines_from,
    match_at, next_line_end, replace_all, replace_count, starts_with, string_of, string_of_range,
    string_pairs_view, strip_leading, text_end, trim, trim_bounds, trim_start, trim_start_bounds,
};
use crate::time::{four_digit_year, rfc3339_secs, timestamp_parse, Timestamp};
use crate::types::{Block, BlockView};

verus! {

/// What `unicode_normalization`'s `nfc()` makes of a text: its Unicode Normalization
/// Form C.
pub uninterp spec fn nfc(s: Seq<char>) -> Seq<char>;

/// Errors encountered when parsing a block `.md` file.
#[derive(Debug)]
pub enum FormatError {
    /// Missing metadata header (expected a `<!-- ... -->` comment).
    MissingMetadataHeader,
    /// A required metadata field is missing.
    MissingField(&'static str),
    /// A field holds no valid UUID.
    InvalidUuid { field: &'static str, value: String },
    /// A field holds no valid timestamp.
    InvalidTimestamp { field: &'static str, value: String },
}

pub enum FormatFailure {
    MissingMetadataHeader,
    MissingField(Seq<char>),
    InvalidUuid(Seq<char>, Seq<char>),
    InvalidTimestamp(Seq<char>, Seq<char>),
}

impl View for FormatError {
    type V = FormatFailure;

    open spec fn view(&self) -> FormatFailure {
        match self {
            FormatError::MissingMetadataHeader => FormatFailure::MissingMetadataHeader,
            FormatError::MissingField(f) => FormatFailure::MissingField(f@),
            FormatError::InvalidUuid { field, value } => FormatFailure::InvalidUuid(field@, value@),
            FormatError::InvalidTimestamp { field, value } => FormatFailure::InvalidTimestamp(
                field@,
                value@,
            ),
        }
    }
}

pub open spec fn crlf() -> Seq<char> {
    seq!['\r', '\n']
}

pub open spec fn lf() -> Seq<char> {
    seq!['\n']
}

pub open spec fn comment_open() -> Seq<char> {
    seq!['<', '!', '-', '-']
}

pub open spec fn comment_close() -> Seq<char> {
    seq!['-', '-', '>']
}

pub open spec fn key_id() -> Seq<char> {
    seq!['i', 'd']
}

pub open spec fn key_name() -> Seq<char> {
    seq!['n', 'a', 'm', 'e']
}

pub open spec fn key_created() -> Seq<char> {
    seq!['c', 'r', 'e', 'a', 't', 'e', 'd']
}

pub open spec fn key_modified() -> Seq<char> {
    seq!['m', 'o', 'd', 'i', 'f', 'i', 'e', 'd']
}

/// Line endings normalized: every `"\r\n"` becomes `"\n"`.
pub open spec fn lf_normalized(s: Seq<char>) -> Seq<char> {
    replace_all(s, crlf(), lf())
}

/// The body after the metadata comment, with the line breaks that separate it
/// from the comment removed.
pub open spec fn body_after_header(r: Seq<char>) -> Seq<char> {
    strip_leading(strip_leading(strip_leading(strip_leading(r, '\r'), '\n'), '\r'), '\n')
}

/// The metadata text (trimmed) and the body of a block file, when it starts with an
/// HTML comment.
pub open spec fn metadata_split(raw: Seq<char>) -> Option<(Seq<char>, Seq<char>)> {
    let t = trim_start(raw);
    if !starts_with(t, comment_open()) {
        None
    } else {
        let after = t.subrange(4, t.len() as int);
        match find_from(after, comment_close(), 0) {
            None => None,
            Some(c) => Some(
                (trim(after.subrange(0, c)), body_after_header(after.subrange(c + 3, after.len() as int))),
            ),
        }
    }
}

/// The `key: value` pair of a metadata line (split at the first colon, both trimmed,
/// the key non-empty).
pub open spec fn field_of(line: Seq<char>) -> Option<(Seq<char>, Seq<char>)> {
    match find_from(line, seq![':'], 0) {
        None => None,
        Some(i) => {
            let k = trim(line.subrange(0, i));
            if k.len() == 0 {
                None
            } else {
                Some((k, trim(line.subrange(i + 1, line.len() as int))))
            }
        },
    }
}

pub open spec fn fields_in(ls: Seq<Seq<char>>) -> Seq<(Seq<char>, Seq<char>)>
    decreases ls.len(),
{
    if ls.len() == 0 {
        Seq::empty()
    } else {
        (match field_of(ls[0]) {
            Some(f) => seq![f],
            None => Seq::empty(),
        }) + fields_in(ls.drop_first())
    }
}

/// The metadata fields of a header: a later line for a key replaces an earlier one.
pub open spec fn metadata_fields(h: Seq<char>) -> Seq<(Seq<char>, Seq<char>)> {
    assoc_build(fields_in(lines(h)))
}

fn lit(s: &str) -> (r: Vec<char>)
    ensures
        r@ == s@,
{
    chars_of(s)
}

fn crlf_chars() -> (r: Vec<char>)
    ensures
        r@ == crlf(),
{
    let mut r = Vec::new();
    r.push('\r');
    r.push('\n');
    assert(r@ =~= crlf());
    r
}

fn lf_chars() -> (r: Vec<char>)
    ensures
        r@ == lf(),
{
    let mut r = Vec::new();
    r.push('\n');
    assert(r@ =~= lf());
    r
}

/// Line endings normalized to LF.
pub fn normalize_lf(s: &str) -> (r: String)
    ensures
        r@ == lf_normalized(s@),
{
    let v = chars_of(s);
    let (out, _) = replace_count(&v, &crlf_chars(), &lf_chars());
    string_of(&out)
}

/// `s.nfc().collect()` (`unicode_normalization`): claimed to be `nfc(s)`, a text that
/// is already in Normalization Form C (normalizing is idempotent).
#[verifier::external_body]
pub(crate) fn normalize_nfc(s: &str) -> (r: String)
    ensures
        r@ == nfc(s@),
        nfc(r@) == r@,
{
    unicode_normalization::UnicodeNormalization::nfc(s).collect()
}

fn strip_leading_bounds(v: &Vec<char>, lo: usize, hi: usize, c: char) -> (a: usize)
    requires
        lo <= hi <= v.len(),
    ensures
        lo <= a <= hi,
        v@.subrange(a as int, hi as int) == strip_leading(v@.subrange(lo as int, hi as int), c),
{
    let mut a = lo;
    while a < hi && v[a] == c
        invariant
            lo <= a <= hi <= v.len(),
            strip_leading(v@.subrange(a as int, hi as int), c) == strip_leading(
                v@.subrange(lo as int, hi as int),
                c,
            ),
        decreases hi - a,
    {
        assert(v@.subrange(a as int, hi as int).drop_first() =~= v@.subrange(a + 1, hi as int));
        a += 1;
    }
    a
}

/// Split a block file into its metadata text and its body.
///
/// The metadata must be an HTML comment (`<!-- ... -->`) at the start of the file
/// (after any whitespace). Returns `(metadata_str, body_content)`.
pub fn extract_metadata_header(raw: &str) -> (r: Result<(String, String), FormatError>)
    ensures
        match r {
            Ok((h, b)) => metadata_split(raw@) == Some((h@, b@)),
            Err(e) => metadata_split(raw@) is None && e@ == FormatFailure::MissingMetadataHeader,
        },
{
    let v = chars_of(raw);
    let a = trim_start_bounds(&v, 0, v.len());
    let ghost t = trim_start(raw@);
    assert(v@.subrange(0, v.len() as int) =~= v@);
    let open = lit("<!--");
    let close = lit("-->");
    proof {
        reveal_strlit("<!--");
        reveal_strlit("-->");
        assert(open@ =~= comment_open());
        assert(close@ =~= comment_close());
    }
    if !match_at(&v, &open, a) {
        assert(!starts_with(t, comment_open())) by {
            if starts_with(t, comment_open()) {
                assert(v@.subrange(a as int, a + 4) =~= t.subrange(0, 4));
            }
        }
        return Err(FormatError::MissingMetadataHeader);
    }
    assert(starts_with(t, comment_open())) by {
        assert(v@.subrange(a as int, a + 4) =~= t.subrange(0, 4));
    }
    let mut after: Vec<char> = Vec::new();
    extend_range(&mut after, &v, a + 4, v.len());
    assert(after@ =~= t.subrange(4, t.len() as int));
    match find_in(&after, &close, 0) {
        None => Err(FormatError::MissingMetadataHeader),
        Some(c) => {
            proof {
                lemma_find_from(after@, comment_close(), 0);
            }
            let (ha, hb) = trim_bounds(&after, 0, c);
            let header = string_of_range(&after, ha, hb);
            let s1 = strip_leading_bounds(&after, c + 3, after.len(), '\r');
            let s2 = strip_leading_bounds(&after, s1, after.len(), '\n');
            let s3 = strip_leading_bounds(&after, s2, after.len(), '\r');
            let s4 = strip_leading_bounds(&after, s3, after.len(), '\n');
            let body = string_of_range(&after, s4, after.len());
            Ok((header, body))
        },
    }
}

/// Parse simple `key: value` lines from a metadata header string.
///
/// Splits on the first colon only, so values containing colons (timestamps) are kept
/// whole. Lines without a colon or with an empty key are skipped; a later line for a
/// key replaces an earlier one.
pub fn parse_metadata_fields(header: &str) -> (r: Vec<(String, String)>)
    ensures
        string_pairs_view(r@) == metadata_fields(header@),
        keys_unique(string_pairs_view(r@)),
{
    let v = chars_of(header);
    let colon = lit(":");
    proof {
        reveal_strlit(":");
        assert(colon@ =~= seq![':']);
    }
    let mut out: Vec<(String, String)> = Vec::new();
    assert(string_pairs_view(out@) =~= Seq::<(Seq<char>, Seq<char>)>::empty());
    let ghost mut done: Seq<(Seq<char>, Seq<char>)> = Seq::empty();
    assert(done + fields_in(lines_from(v@, 0)) =~= fields_in(lines(header@)));
    let mut start: usize = 0;
    while start < v.len()
        invariant
            start <= v.len(),
            v@ == header@,
            colon@ == seq![':'],
            string_pairs_view(out@) == assoc_build(done),
            keys_unique(string_pairs_view(out@)),
            done + fields_in(lines_from(v@, start as int)) == fields_in(lines(header@)),
        decreases v.len() - start,
    {
        let e = next_line_end(&v, start);
        let le = text_end(&v, start, e);
        proof {
            lemma_lines_from_unfold(v@, start as int);
        }
        let ghost line = v@.subrange(start as int, le as int);
        let ghost rest = lines_from(v@, start as int).drop_first();
        assert(fields_in(lines_from(v@, start as int)) == (match field_of(line) {
            Some(f) => seq![f],
            None => Seq::<(Seq<char>, Seq<char>)>::empty(),
        }) + fields_in(rest));
        let mut lv: Vec<char> = Vec::new();
        extend_range(&mut lv, &v, start, le);
        assert(lv@ =~= line);
        proof {
            lemma_find_from(lv@, seq![':'], 0);
        }
        let mut found = false;
        match find_in(&lv, &colon, 0) {
            Some(i) => {
                let (ka, kb) = trim_bounds(&lv, 0, i);
                if ka < kb {
                    let (va, vb) = trim_bounds(&lv, i + 1, lv.len());
                    let k = string_of_range(&lv, ka, kb);
                    let val = string_of_range(&lv, va, vb);
                    let ghost entry = (k@, val@);
                    assoc_set_text(&mut out, k, val);
                    proof {
                        assert(done.push(entry).drop_last() =~= done);
                        assert(done + (seq![entry] + fields_in(rest)) =~= done.push(entry)
                            + fields_in(rest));
                        done = done.push(entry);
                    }
                    found = true;
                }
            },
            None => {},
        }
        if !found {
            assert(done + (Seq::<(Seq<char>, Seq<char>)>::empty() + fields_in(rest)) =~= done
                + fields_in(rest));
        }
        if e >= v.len() {
            start = v.len();
            assert(lines_from(v@, start as int) =~= Seq::<Seq<char>>::empty());
            assert(rest =~= Seq::<Seq<char>>::empty());
        } else {
            start = e + 1;
        }
    }
    assert(lines_from(v@, start as int) =~= Seq::<Seq<char>>::empty());
    assert(done + Seq::<(Seq<char>, Seq<char>)>::empty() =~= done);
    out
}

/// The parsed form of a block file: the block, or the first problem found.
pub open spec fn parse_block_spec(raw: Seq<char>) -> Result<BlockView, FormatFailure> {
    match metadata_split(lf_normalized(raw)) {
        None => Err(FormatFailure::MissingMetadataHeader),
        Some((h, body)) => {
            let f = metadata_fields(h);
            match assoc_get(f, key_id()) {
                None => Err(FormatFailure::MissingField(key_id())),
                Some(ids) => match uuid_parse(ids) {
                    None => Err(FormatFailure::InvalidUuid(key_id(), ids)),
                    Some(id) => match assoc_get(f, key_name()) {
                        None => Err(FormatFailure::MissingField(key_name())),
                        Some(nm) => match assoc_get(f, key_created()) {
                            None => Err(FormatFailure::MissingField(key_created())),
                            Some(cs) => match timestamp_parse(cs) {
                                None => Err(FormatFailure::InvalidTimestamp(key_created(), cs)),
                                Some(ct) => match assoc_get(f, key_modified()) {
                                    None => Err(FormatFailure::MissingField(key_modified())),
                                    Some(ms) => match timestamp_parse(ms) {
                                        None => Err(
                                            FormatFailure::InvalidTimestamp(key_modified(), ms),
                                        ),
                                        Some(mt) => Ok(
                                            BlockView {
                                                id,
                                                name: nfc(nm),
                                                content: body,
                                                created: ct,
                                                modified: mt,
                                            },
                                        ),
                                    },
                                },
                            },
                        },
                    },
                },
            }
        },
    }
}

/// The timestamp a permissive parse takes from a field: its value when it parses,
/// the Unix epoch otherwise.
pub open spec fn timestamp_or_epoch(v: Option<Seq<char>>) -> (i64, u32) {
    match v {
        Some(s) => match timestamp_parse(s) {
            Some(t) => t,
            None => (0, 0),
        },
        None => (0, 0),
    }
}

/// The permissive parse of a block file: only the header and a valid `id` are needed,
/// a missing name becomes empty and missing or invalid timestamps the Unix epoch.
pub open spec fn parse_block_permissive_spec(raw: Seq<char>) -> Result<BlockView, FormatFailure> {
    match metadata_split(lf_normalized(raw)) {
        None => Err(FormatFailure::MissingMetadataHeader),
        Some((h, body)) => {
            let f = metadata_fields(h);
            match assoc_get(f, key_id()) {
                None => Err(FormatFailure::MissingField(key_id())),
                Some(ids) => match uuid_parse(ids) {
                    None => Err(FormatFailure::InvalidUuid(key_id(), ids)),
                    Some(id) => Ok(
                        BlockView {
                            id,
                            name: match assoc_get(f, key_name()) {
                                Some(nm) => nfc(nm),
                                None => Seq::empty(),
                            },
                            content: body,
                            created: timestamp_or_epoch(assoc_get(f, key_created())),
                            modified: timestamp_or_epoch(assoc_get(f, key_modified())),
                        },
                    ),
                },
            }
        },
    }
}

pub open spec fn parse_result_view(r: Result<Block, FormatError>) -> Result<BlockView, FormatFailure> {
    match r {
        Ok(b) => Ok(b@),
        Err(e) => Err(e@),
    }
}

fn owned(s: &str) -> (r: String)
    ensures
        r@ == s@,
{
    s.to_owned()
}

/// The value of field `key`, if present.
fn field_value(fields: &Vec<(String, String)>, key: &str) -> (r: Option<String>)
    requires
        keys_unique(string_pairs_view(fields@)),
    ensures
        match r {
            Some(v) => assoc_get(string_pairs_view(fields@), key@) == Some(v@),
            None => assoc_get(string_pairs_view(fields@), key@) is None,
        },
{
    let ghost s = string_pairs_view(fields@);
    let k = owned(key);
    let mut i: usize = 0;
    while i < fields.len()
        invariant
            i <= fields.len(),
            s == string_pairs_view(fields@),
            keys_unique(s),
            k@ == key@,
            forall|j: int| 0 <= j < i ==> s[j].0 != key@,
        decreases fields.len() - i,
    {
        if fields[i].0 == k {
            assert(s[i as int].0 == key@);
            let ghost ci = choose|j: int| 0 <= j < s.len() && s[j].0 == key@;
            assert(ci == i) by {
                if ci != i {
                    assert(s[ci].0 == s[i as int].0);
                }
            }
            return Some(fields[i].1.clone());
        }
        i += 1;
    }
    None
}

/// Header and body of a file once its line endings are normalized.
fn split_normalized(raw: &str) -> (r: Result<(Vec<(String, String)>, String), FormatError>)
    ensures
        match r {
            Ok((f, b)) => metadata_split(lf_normalized(raw@)) matches Some((h, body)) && b@ == body
                && string_pairs_view(f@) == metadata_fields(h) && keys_unique(
                string_pairs_view(f@),
            ),
            Err(e) => metadata_split(lf_normalized(raw@)) is None && e@
                == FormatFailure::MissingMetadataHeader,
        },
{
    let normalized = normalize_lf(raw);
    let (header, content) = match extract_metadata_header(normalized.as_str()) {
        Ok(p) => p,
        Err(e) => {
            return Err(e);
        },
    };
    let fields = parse_metadata_fields(header.as_str());
    Ok((fields, content))
}

/// Parse a block `.md` file into a `Block`. The name is returned in NFC.
pub fn parse_block_file(raw: &str) -> (r: Result<Block, FormatError>)
    ensures
        parse_result_view(r) == parse_block_spec(raw@),
        r matches Ok(b) ==> nfc(b@.name) == b@.name,
{
    proof {
        reveal_strlit("id");
        reveal_strlit("name");
        reveal_strlit("created");
        reveal_strlit("modified");
        assert("id"@ =~= key_id());
        assert("name"@ =~= key_name());
        assert("created"@ =~= key_created());
        assert("modified"@ =~= key_modified());
    }
    let (fields, content) = match split_normalized(raw) {
        Ok(p) => p,
        Err(e) => {
            return Err(e);
        },
    };
    let id_str = match field_value(&fields, "id") {
        Some(v) => v,
        None => {
            return Err(FormatError::MissingField("id"));
        },
    };
    let id = match parse_uuid(id_str.as_str()) {
        Some(u) => u,
        None => {
            return Err(FormatError::InvalidUuid { field: "id", value: id_str });
        },
    };
    let name_raw = match field_value(&fields, "name") {
        Some(v) => v,
        None => {
            return Err(FormatError::MissingField("name"));
        },
    };
    let name = normalize_nfc(name_raw.as_str());
    let created_str = match field_value(&fields, "created") {
        Some(v) => v,
        None => {
            return Err(FormatError::MissingField("created"));
        },
    };
    let created = match Timestamp::parse(created_str.as_str()) {
        Some(t) => t,
        None => {
            return Err(FormatError::InvalidTimestamp { field: "created", value: created_str });
        },
    };
    let modified_str = match field_value(&fields, "modified") {
        Some(v) => v,
        None => {
            return Err(FormatError::MissingField("modified"));
        },
    };
    let modified = match Timestamp::parse(modified_str.as_str()) {
        Some(t) => t,
        None => {
            return Err(FormatError::InvalidTimestamp { field: "modified", value: modified_str });
        },
    };
    Ok(Block { id, name, content, created, modified })
}

fn timestamp_field(fields: &Vec<(String, String)>, key: &str) -> (r: Timestamp)
    requires
        keys_unique(string_pairs_view(fields@)),
    ensures
        (r.secs(), r.nanos()) == timestamp_or_epoch(assoc_get(string_pairs_view(fields@), key@)),
{
    match field_value(fields, key) {
        Some(v) => match Timestamp::parse(v.as_str()) {
            Some(t) => t,
            None => Timestamp::epoch(),
        },
        None => Timestamp::epoch(),
    }
}

/// Parse a block file permissively, filling defaults for missing non-ID fields.
///
/// Used while loading a vault, where malformed files are ingested for validation rather
/// than rejected. Fails only if the metadata header is missing or the `id` field is
/// absent or invalid.
pub fn parse_block_file_permissive(raw: &str) -> (r: Result<Block, FormatError>)
    ensures
        parse_result_view(r) == parse_block_permissive_spec(raw@),
        r matches Ok(b) ==> b@.name.len() == 0 || nfc(b@.name) == b@.name,
{
    proof {
        reveal_strlit("id");
        reveal_strlit("name");
        reveal_strlit("created");
        reveal_strlit("modified");
        assert("id"@ =~= key_id());
        assert("name"@ =~= key_name());
        assert("created"@ =~= key_created());
        assert("modified"@ =~= key_modified());
    }
    let (fields, content) = match split_normalized(raw) {
        Ok(p) => p,
        Err(e) => {
            return Err(e);
        },
    };
    let id_str = match field_value(&fields, "id") {
        Some(v) => v,
        None => {
            return Err(FormatError::MissingField("id"));
        },
    };
    let id = match parse_uuid(id_str.as_str()) {
        Some(u) => u,
        None => {
            return Err(FormatError::InvalidUuid { field: "id", value: id_str });
        },
    };
    let name = match field_value(&fields, "name") {
        Some(v) => normalize_nfc(v.as_str()),
        None => String::new(),
    };
    let created = timestamp_field(&fields, "created");
    let modified = timestamp_field(&fields, "modified");
    Ok(Block { id, name, content, created, modified })
}

/// The separator between a metadata key and its value.
pub open spec fn key_separator() -> Seq<char> {
    seq![':', ' ']
}

/// One `key: value` line of the metadata comment.
pub open spec fn metadata_line(k: Seq<char>, v: Seq<char>) -> Seq<char> {
    k + key_separator() + v
}

/// The four metadata lines of a block, joined by line breaks.
pub open spec fn metadata_lines(b: BlockView) -> Seq<char> {
    metadata_line(key_id(), uuid_text(b.id)) + (lf() + (metadata_line(key_name(), nfc(b.name)) + (
    lf() + (metadata_line(key_created(), rfc3339_secs(b.created.0, b.created.1)) + (lf()
        + metadata_line(key_modified(), rfc3339_secs(b.modified.0, b.modified.1)))))))
}

/// The canonical text of a block file: metadata comment with the NFC name and RFC 3339
/// timestamps, then, when the LF-normalized content is not empty, a blank line and the
/// content.
pub open spec fn serialized(b: BlockView) -> Seq<char> {
    let c = lf_normalized(b.content);
    let header = comment_open() + lf() + metadata_lines(b) + lf() + comment_close() + lf();
    if c.len() > 0 {
        header + (lf() + c)
    } else {
        header
    }
}

/// The blocks whose file reads back as the same block: the name is in NFC, has no
/// surrounding whitespace, no line break and no `-->`; the content has no CRLF and does
/// not start with a line break; the timestamps are whole seconds of years 0000 to 9999.
pub open spec fn round_trips(b: BlockView) -> bool {
    &&& nfc(b.name) == b.name
    &&& trim(b.name) == b.name
    &&& !b.name.contains('\n')
    &&& !contains(b.name, comment_close())
    &&& !contains(b.content, crlf())
    &&& (b.content.len() > 0 ==> b.content[0] != '\n' && b.content[0] != '\r')
    &&& b.created.1 == 0 && four_digit_year(b.created.0)
    &&& b.modified.1 == 0 && four_digit_year(b.modified.0)
}

fn push_lit(out: &mut Vec<char>, s: &str)
    ensures
        final(out)@ == old(out)@ + s@,
{
    let v = chars_of(s);
    extend_all(out, &v);
}

fn push_string(out: &mut Vec<char>, s: &String)
    ensures
        final(out)@ == old(out)@ + s@,
{
    let v = chars_of(s.as_str());
    extend_all(out, &v);
}

/// Serialize a `Block` to the canonical block file format.
///
/// The name is written in NFC and content line endings as LF. A block whose name is
/// in NFC and trimmed, without line breaks or `-->`, whose content has no CRLF and does
/// not start with a line break, and whose timestamps are whole seconds of a four-digit
/// year, parses back to itself.
pub fn serialize_block_file(block: &Block) -> (r: String)
    ensures
        r@ == serialized(block@),
        round_trips(block@) ==> parse_block_spec(r@) == Ok::<BlockView, FormatFailure>(block@),
{
    proof {
        reveal_strlit("<!--\n");
        reveal_strlit("id: ");
        reveal_strlit("name: ");
        reveal_strlit("created: ");
        reveal_strlit("modified: ");
        reveal_strlit("\n");
        reveal_strlit("-->\n");
    }
    let name = normalize_nfc(block.name.as_str());
    let content = normalize_lf(block.content.as_str());
    let id_text = format_uuid(block.id);
    let created_text = block.created.to_rfc3339();
    let modified_text = block.modified.to_rfc3339();
    let mut out: Vec<char> = Vec::new();
    push_lit(&mut out, "<!--\n");
    let ghost p0 = out@;
    push_lit(&mut out, "id: ");
    push_string(&mut out, &id_text);
    let ghost p1 = out@;
    push_lit(&mut out, "\n");
    push_lit(&mut out, "name: ");
    push_string(&mut out, &name);
    let ghost p2 = out@;
    push_lit(&mut out, "\n");
    push_lit(&mut out, "created: ");
    push_string(&mut out, &created_text);
    let ghost p3 = out@;
    push_lit(&mut out, "\n");
    push_lit(&mut out, "modified: ");
    push_string(&mut out, &modified_text);
    let ghost p4 = out@;
    push_lit(&mut out, "\n");
    push_lit(&mut out, "-->\n");
    let ghost header = out@;
    if !content.as_str().is_empty() {
        push_lit(&mut out, "\n");
        push_string(&mut out, &content);
    }
    proof {
        let b = block@;
        let l1 = metadata_line(key_id(), uuid_text(b.id));
        let l2 = metadata_line(key_name(), nfc(b.name));
        let l3 = metadata_line(key_created(), rfc3339_secs(b.created.0, b.created.1));
        let l4 = metadata_line(key_modified(), rfc3339_secs(b.modified.0, b.modified.1));
        assert(p0 =~= comment_open() + lf());
        assert(p1 =~= p0 + l1);
        assert(p2 =~= p1 + lf() + l2);
        assert(p3 =~= p2 + lf() + l3);
        assert(p4 =~= p3 + lf() + l4);
        assert(p4 =~= comment_open() + lf() + metadata_lines(b));
        assert(header =~= comment_open() + lf() + metadata_lines(b) + lf() + comment_close() + lf());
        if round_trips(b) {
            crate::readback::lemma_reads_back(b);
        }
    }
    string_of(&out)
}

} // verus!
