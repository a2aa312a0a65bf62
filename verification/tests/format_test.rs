use portablenote::format::{
    extract_metadata_header, parse_block_file, parse_block_file_permissive,
    parse_metadata_fields, serialize_block_file, FormatError,
};
use portablenote::time::Timestamp;
use portablenote::types::Block;
use uuid::Uuid;

const BLOCK_ID: &str = "10000000-0000-4000-a000-000000000001";

fn minimal_block_file() -> String {
    format!(
        "<!--\nid: {BLOCK_ID}\nname: Welcome\ncreated: 2026-03-01T00:00:00Z\nmodified: 2026-03-01T00:00:00Z\n-->\n\nThis is a minimal block.\n"
    )
}

fn block_file_with_refs() -> String {
    format!(
        "<!--\nid: {BLOCK_ID}\nname: Core Concepts\ncreated: 2026-03-01T00:00:00Z\nmodified: 2026-03-01T00:00:00Z\n-->\n\nSee [[Getting Started]] for context.\n\n<!-- refs -->\n[Getting Started]: uuid:20000000-0000-4000-a000-000000000002\n"
    )
}

fn field<'a>(fields: &'a [(String, String)], key: &str) -> Option<&'a String> {
    fields.iter().find(|(k, _)| k == key).map(|(_, v)| v)
}

fn ts(s: &str) -> Timestamp {
    Timestamp::parse(s).unwrap()
}

fn block_id() -> u128 {
    Uuid::parse_str(BLOCK_ID).unwrap().as_u128()
}

#[test]
fn extract_header_splits_metadata_and_content() {
    let raw = minimal_block_file();
    let (header, content) = extract_metadata_header(&raw).unwrap();
    assert!(header.contains("id:"));
    assert!(header.contains("name: Welcome"));
    assert_eq!(content, "This is a minimal block.\n");
}

#[test]
fn extract_header_missing_comment_is_error() {
    let err = extract_metadata_header("No comment here.").unwrap_err();
    assert!(matches!(err, FormatError::MissingMetadataHeader));
}

#[test]
fn extract_header_unclosed_comment_is_error() {
    let err = extract_metadata_header("<!-- no close\nstuff").unwrap_err();
    assert!(matches!(err, FormatError::MissingMetadataHeader));
}

#[test]
fn parse_fields_extracts_key_values() {
    let header = "id: abc-123\nname: My Block\ncreated: 2026-03-01T00:00:00Z";
    let fields = parse_metadata_fields(header);
    assert_eq!(field(&fields, "id").unwrap(), "abc-123");
    assert_eq!(field(&fields, "name").unwrap(), "My Block");
    assert_eq!(field(&fields, "created").unwrap(), "2026-03-01T00:00:00Z");
}

#[test]
fn parse_fields_preserves_colons_in_values() {
    let header = "modified: 2026-03-01T12:34:56Z";
    let fields = parse_metadata_fields(header);
    assert_eq!(field(&fields, "modified").unwrap(), "2026-03-01T12:34:56Z");
}

#[test]
fn parse_fields_skips_empty_keys() {
    let fields = parse_metadata_fields(": orphan value\ngood: value");
    assert_eq!(fields.len(), 1);
    assert_eq!(field(&fields, "good").unwrap(), "value");
}

#[test]
fn parse_minimal_block() {
    let raw = minimal_block_file();
    let block = parse_block_file(&raw).unwrap();
    assert_eq!(block.id, block_id());
    assert_eq!(block.name, "Welcome");
    assert_eq!(block.content, "This is a minimal block.\n");
}

#[test]
fn parse_block_with_footer_annotations() {
    let raw = block_file_with_refs();
    let block = parse_block_file(&raw).unwrap();
    assert_eq!(block.name, "Core Concepts");
    assert!(block.content.contains("[[Getting Started]]"));
    assert!(block.content.contains("<!-- refs -->"));
    assert!(block
        .content
        .contains("[Getting Started]: uuid:20000000-0000-4000-a000-000000000002"));
}

#[test]
fn parse_missing_header_is_error() {
    let err = parse_block_file("Just content, no metadata.").unwrap_err();
    assert!(matches!(err, FormatError::MissingMetadataHeader));
}

#[test]
fn parse_missing_id_is_error() {
    let raw = "<!--\nname: Test\ncreated: 2026-03-01T00:00:00Z\nmodified: 2026-03-01T00:00:00Z\n-->\n\nContent.\n";
    let err = parse_block_file(raw).unwrap_err();
    assert!(matches!(err, FormatError::MissingField("id")));
}

#[test]
fn parse_missing_name_is_error() {
    let raw = format!("<!--\nid: {BLOCK_ID}\ncreated: 2026-03-01T00:00:00Z\nmodified: 2026-03-01T00:00:00Z\n-->\n\nContent.\n");
    let err = parse_block_file(&raw).unwrap_err();
    assert!(matches!(err, FormatError::MissingField("name")));
}

#[test]
fn parse_invalid_uuid_is_error() {
    let raw = "<!--\nid: not-a-uuid\nname: Test\ncreated: 2026-03-01T00:00:00Z\nmodified: 2026-03-01T00:00:00Z\n-->\n\nContent.\n";
    let err = parse_block_file(raw).unwrap_err();
    assert!(matches!(err, FormatError::InvalidUuid { .. }));
}

#[test]
fn parse_invalid_timestamp_is_error() {
    let raw = format!("<!--\nid: {BLOCK_ID}\nname: Test\ncreated: not-a-date\nmodified: 2026-03-01T00:00:00Z\n-->\n\nContent.\n");
    let err = parse_block_file(&raw).unwrap_err();
    assert!(matches!(err, FormatError::InvalidTimestamp { .. }));
}

#[test]
fn serialize_produces_canonical_format() {
    let t = ts("2026-03-01T00:00:00Z");
    let block = Block {
        id: block_id(),
        name: "Welcome".to_string(),
        content: "This is a minimal block.\n".to_string(),
        created: t,
        modified: t,
    };

    let serialized = serialize_block_file(&block);

    assert!(serialized.starts_with("<!--\n"));
    assert!(serialized.contains(&format!("id: {BLOCK_ID}\n")));
    assert!(serialized.contains("name: Welcome\n"));
    assert!(serialized.contains("created: 2026-03-01T00:00:00Z\n"));
    assert!(serialized.contains("modified: 2026-03-01T00:00:00Z\n"));
    assert!(serialized.contains("-->\n\nThis is a minimal block.\n"));
}

#[test]
fn serialize_empty_content_omits_separator() {
    let t = ts("2026-03-01T00:00:00Z");
    let block = Block {
        id: block_id(),
        name: "Empty".to_string(),
        content: String::new(),
        created: t,
        modified: t,
    };

    let serialized = serialize_block_file(&block);
    assert!(serialized.ends_with("-->\n"));
}

#[test]
fn round_trip_minimal_block() {
    let raw = minimal_block_file();
    let block = parse_block_file(&raw).unwrap();
    let reserialized = serialize_block_file(&block);
    let reparsed = parse_block_file(&reserialized).unwrap();

    assert_eq!(block.id, reparsed.id);
    assert_eq!(block.name, reparsed.name);
    assert_eq!(block.content, reparsed.content);
    assert_eq!(block.created, reparsed.created);
    assert_eq!(block.modified, reparsed.modified);
}

#[test]
fn permissive_fills_defaults_for_missing_name() {
    let raw = format!(
        "<!--\nid: {BLOCK_ID}\ncreated: 2026-03-01T00:00:00Z\nmodified: 2026-03-01T00:00:00Z\n-->\n\nContent without a name.\n"
    );
    let block = parse_block_file_permissive(&raw).unwrap();
    assert_eq!(block.id, block_id());
    assert!(block.name.is_empty());
}

#[test]
fn permissive_fills_defaults_for_missing_timestamps() {
    let raw = format!("<!--\nid: {BLOCK_ID}\nname: Test\n-->\n\nContent.\n");
    let block = parse_block_file_permissive(&raw).unwrap();
    assert_eq!(block.name, "Test");
    assert_eq!(block.created, Timestamp::default());
    assert_eq!(block.modified, Timestamp::default());
}

#[test]
fn permissive_still_requires_valid_id() {
    let raw = "<!--\nname: Test\n-->\n\nContent.\n";
    let err = parse_block_file_permissive(raw).unwrap_err();
    assert!(matches!(err, FormatError::MissingField("id")));
}

#[test]
fn permissive_still_requires_metadata_header() {
    let err = parse_block_file_permissive("Just content.").unwrap_err();
    assert!(matches!(err, FormatError::MissingMetadataHeader));
}

#[test]
fn serialize_normalizes_crlf_to_lf() {
    let t = ts("2026-03-01T00:00:00Z");
    let block = Block {
        id: block_id(),
        name: "Test".to_string(),
        content: "line1\r\nline2\r\n".to_string(),
        created: t,
        modified: t,
    };

    let serialized = serialize_block_file(&block);
    assert!(
        !serialized.contains("\r\n"),
        "serialized output must not contain CRLF"
    );
    assert!(serialized.contains("line1\nline2\n"));
}

#[test]
fn serialize_normalizes_name_to_nfc() {
    let t = ts("2026-03-01T00:00:00Z");
    let block = Block {
        id: block_id(),
        name: "cafe\u{0301}".to_string(),
        content: String::new(),
        created: t,
        modified: t,
    };

    let serialized = serialize_block_file(&block);
    assert!(
        serialized.contains("name: caf\u{00E9}\n"),
        "name must be NFC-normalized in serialized output"
    );
}

#[test]
fn parse_normalizes_crlf_content_to_lf() {
    let raw = format!(
        "<!--\nid: {BLOCK_ID}\nname: Test\ncreated: 2026-03-01T00:00:00Z\nmodified: 2026-03-01T00:00:00Z\n-->\r\n\r\nline1\r\nline2\r\n"
    );
    let block = parse_block_file(&raw).unwrap();
    assert!(
        !block.content.contains('\r'),
        "parsed content must not contain CR"
    );
}

#[test]
fn round_trip_block_with_refs() {
    let raw = block_file_with_refs();
    let block = parse_block_file(&raw).unwrap();
    let reserialized = serialize_block_file(&block);
    let reparsed = parse_block_file(&reserialized).unwrap();

    assert_eq!(block.id, reparsed.id);
    assert_eq!(block.name, reparsed.name);
    assert_eq!(block.content, reparsed.content);
    assert_eq!(block.created, reparsed.created);
    assert_eq!(block.modified, reparsed.modified);
}

#[test]
fn serialized_block_reads_back_as_itself() {
    let block = Block {
        id: block_id(),
        name: "Reading List".to_string(),
        content: "First line\n\n- item with [[Other]]\n".to_string(),
        created: Timestamp::from_unix(1_772_323_200, 0).unwrap(),
        modified: Timestamp::from_unix(1_772_409_600, 0).unwrap(),
    };
    let text = serialize_block_file(&block);
    assert_same_block(&parse_block_file(&text).unwrap(), &block);
}

#[test]
fn serialized_block_with_empty_content_reads_back_as_itself() {
    let block = Block {
        id: block_id(),
        name: "Empty".to_string(),
        content: String::new(),
        created: ts("2026-03-01T00:00:00Z"),
        modified: ts("2026-03-02T12:30:00Z"),
    };
    let text = serialize_block_file(&block);
    assert!(text.ends_with("-->\n"));
    assert_same_block(&parse_block_file(&text).unwrap(), &block);
}

#[test]
fn serialized_name_with_surrounding_spaces_reads_back_trimmed() {
    let block = Block {
        id: block_id(),
        name: "  Padded  ".to_string(),
        content: "Body".to_string(),
        created: ts("2026-03-01T00:00:00Z"),
        modified: ts("2026-03-01T00:00:00Z"),
    };
    let back = parse_block_file(&serialize_block_file(&block)).unwrap();
    assert_eq!(back.name, "Padded");
}

fn assert_same_block(a: &Block, b: &Block) {
    assert_eq!(a.id, b.id);
    assert_eq!(a.name, b.name);
    assert_eq!(a.content, b.content);
    assert_eq!(a.created, b.created);
    assert_eq!(a.modified, b.modified);
}

#[test]
fn parsed_name_is_in_nfc_and_reads_back() {
    let raw = format!(
        "<!--\nid: {BLOCK_ID}\nname: Cafe\u{301}\ncreated: 2026-03-01T00:00:00Z\nmodified: 2026-03-01T00:00:00Z\n-->\n\nBody.\n"
    );
    let block = parse_block_file(&raw).unwrap();
    assert_eq!(block.name, "Caf\u{e9}");
    let again = parse_block_file(&serialize_block_file(&block)).unwrap();
    assert_same_block(&again, &block);
}
