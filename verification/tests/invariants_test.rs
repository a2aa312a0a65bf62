use portablenote::error::ViolationDetails;
use portablenote::invariants::validate_vault;
use portablenote::time::Timestamp;
use portablenote::types::{Block, BlockGraph, Edge, Manifest, Vault};

fn block(id: u128, name: &str, content: &str) -> Block {
    let t = Timestamp::parse("2026-03-01T00:00:00Z").unwrap();
    Block { id, name: name.to_string(), content: content.to_string(), created: t, modified: t }
}

fn vault(blocks: Vec<Block>, edges: Vec<Edge>) -> Vault {
    let names = blocks.iter().filter(|b| !b.name.is_empty()).map(|b| (b.name.clone(), b.id)).collect();
    Vault {
        manifest: Manifest {
            vault_id: 1,
            spec_version: "0.1.0".to_string(),
            format: "markdown".to_string(),
            checksum: String::new(),
            previous_checksum: None,
        },
        blocks,
        graph: BlockGraph { version: "0.1.0".to_string(), edges },
        documents: vec![],
        names,
        version: 0,
    }
}

#[test]
fn valid_minimal_passes_all_invariants() {
    let v = vault(vec![block(1, "Welcome", "This is a minimal block.\n")], vec![]);
    assert!(validate_vault(&v).is_empty());
}

#[test]
fn valid_with_orphans_passes_all_invariants() {
    let v = vault(
        vec![block(1, "A", ""), block(2, "B", ""), block(3, "Lonely", "")],
        vec![Edge { id: 10, source: 1, target: 2 }],
    );
    assert!(validate_vault(&v).is_empty());
}

#[test]
fn invalid_dangling_uuid_detected() {
    let v = vault(vec![block(1, "A", "")], vec![Edge { id: 10, source: 1, target: 2 }]);
    let violations = validate_vault(&v);
    assert!(!violations.is_empty(), "should detect dangling UUID");
    let d = violations
        .iter()
        .find(|v| matches!(v.details, ViolationDetails::DanglingEdgeUuid { .. }))
        .expect("should have a DanglingEdgeUuid violation");
    assert!(d.description.contains("exist"), "{}", d.description);
    assert!(matches!(&d.details, ViolationDetails::DanglingEdgeUuid { dangling_uuid: 2, field, .. } if field == "target"));
    assert!(violations.iter().any(|v| matches!(v.details, ViolationDetails::InvalidEdgeEndpoint { edge_id: 10 })));
}

#[test]
fn invalid_duplicate_name_detected() {
    let v = vault(vec![block(1, "Meeting Notes", ""), block(2, "meeting notes", ""), block(3, "Other", "")], vec![]);
    let violations = validate_vault(&v);
    assert_eq!(violations.len(), 1);
    let d = &violations[0];
    assert!(d.description.contains("case-insensitive"), "{}", d.description);
    match &d.details {
        ViolationDetails::DuplicateName { name, block_ids } => {
            assert_eq!(name, "Meeting Notes");
            assert_eq!(block_ids, &vec![1u128, 2u128]);
        }
        _ => panic!("expected DuplicateName"),
    }
}

#[test]
fn invalid_heading_in_block_detected() {
    let v = vault(vec![block(1, "A", "Text\n\n## Bad\n")], vec![]);
    let violations = validate_vault(&v);
    assert!(!violations.is_empty());
    let d = violations
        .iter()
        .find(|v| matches!(v.details, ViolationDetails::HeadingInContent { .. }))
        .expect("should have a HeadingInContent violation");
    assert!(d.description.contains("heading"), "{}", d.description);
    assert!(matches!(&d.details, ViolationDetails::HeadingInContent { heading_text, heading_level: 2, .. } if heading_text == "Bad"));
}

#[test]
fn invalid_reserved_in_name_detected() {
    let v = vault(vec![block(1, "Bad [Name]", "")], vec![]);
    let violations = validate_vault(&v);
    assert!(!violations.is_empty(), "should detect reserved character in name");
    let d = violations
        .iter()
        .find(|v| matches!(v.details, ViolationDetails::NameContainsReservedCharacters { .. }))
        .expect("should have a NameContainsReservedCharacters violation");
    assert!(d.description.contains("reserved"), "{}", d.description);
}

#[test]
fn invalid_missing_metadata_detected() {
    let v = vault(vec![block(1, "", "content")], vec![]);
    let violations = validate_vault(&v);
    assert!(!violations.is_empty(), "should detect missing metadata field");
    let d = violations
        .iter()
        .find(|v| matches!(v.details, ViolationDetails::MissingMetadataField { .. }))
        .expect("should have a MissingMetadataField violation");
    assert!(d.description.contains("name"), "{}", d.description);
}
