use portablenote::checksum::{compute, is_drifted};
use portablenote::gate::mutation_gate;
use portablenote::ports::{BlockStore, DocumentStore, MutationGate};
use portablenote::error::DomainError;
use portablenote::journal::apply_writes_to_vault;
use portablenote::results::VaultWrite;
use portablenote::time::Timestamp;
use portablenote::types::{Block, BlockGraph, Document, Edge, Manifest, Section, Vault};
use portablenote::use_cases::init_vault::GENESIS_CHECKSUM;
use uuid::Uuid;

fn u(s: &str) -> u128 {
    Uuid::parse_str(s).unwrap().as_u128()
}

fn make_block(id: u128, name: &str, content: &str) -> Block {
    Block {
        id,
        name: name.to_string(),
        content: content.to_string(),
        created: Timestamp::now(),
        modified: Timestamp::now(),
    }
}

fn empty_vault() -> Vault {
    Vault {
        manifest: Manifest {
            vault_id: 0,
            spec_version: "0.1.0".to_string(),
            format: "portablenote".to_string(),
            checksum: String::new(),
            previous_checksum: None,
        },
        blocks: Vec::new(),
        graph: BlockGraph { version: "0.1.0".to_string(), edges: Vec::new() },
        documents: Vec::new(),
        names: Vec::new(),
        version: 0,
    }
}

fn with_blocks(blocks: Vec<Block>) -> Vault {
    let mut v = empty_vault();
    v.blocks = blocks;
    v
}

#[test]
fn starts_with_sha256_prefix() {
    let vault = empty_vault();
    let result = compute(&vault);
    assert!(result.starts_with("sha256:"), "got: {result}");
}

#[test]
fn empty_vault_is_deterministic() {
    let a = compute(&empty_vault());
    let b = compute(&empty_vault());
    assert_eq!(a, b);
}

#[test]
fn empty_vault_checksum_is_genesis() {
    assert_eq!(compute(&empty_vault()), GENESIS_CHECKSUM);
}

#[test]
fn different_content_different_checksum() {
    let id = u("00000000-0000-4000-a000-000000000001");
    let v1 = with_blocks(vec![make_block(id, "A", "hello")]);
    let v2 = with_blocks(vec![make_block(id, "A", "world")]);
    assert_ne!(compute(&v1), compute(&v2));
}

#[test]
fn order_independent_of_insertion() {
    let id_a = u("00000000-0000-4000-a000-000000000001");
    let id_b = u("00000000-0000-4000-a000-000000000002");
    let v1 = apply_writes_to_vault(
        &empty_vault(),
        &vec![
            VaultWrite::WriteBlock(make_block(id_a, "A", "aaa")),
            VaultWrite::WriteBlock(make_block(id_b, "B", "bbb")),
        ],
    );
    let v2 = apply_writes_to_vault(
        &empty_vault(),
        &vec![
            VaultWrite::WriteBlock(make_block(id_b, "B", "bbb")),
            VaultWrite::WriteBlock(make_block(id_a, "A", "aaa")),
        ],
    );
    assert_eq!(compute(&v1), compute(&v2));
    assert_eq!(v2.blocks[0].id, id_a);
}

#[test]
fn edges_affect_checksum() {
    let id_a = u("00000000-0000-4000-a000-000000000001");
    let id_b = u("00000000-0000-4000-a000-000000000002");
    let edge_id = u("00000000-0000-4000-a000-0000000000e1");
    let v1 = with_blocks(vec![make_block(id_a, "A", ""), make_block(id_b, "B", "")]);
    let mut v2 = with_blocks(vec![make_block(id_a, "A", ""), make_block(id_b, "B", "")]);
    v2.graph.edges.push(Edge { id: edge_id, source: id_a, target: id_b });
    assert_ne!(compute(&v1), compute(&v2));
}

#[test]
fn edge_order_does_not_affect_checksum() {
    let id_a = u("00000000-0000-4000-a000-000000000001");
    let id_b = u("00000000-0000-4000-a000-000000000002");
    let e1 = Edge { id: u("00000000-0000-4000-a000-0000000000e1"), source: id_a, target: id_b };
    let e2 = Edge { id: u("00000000-0000-4000-a000-0000000000e2"), source: id_b, target: id_a };
    let mut v1 = with_blocks(vec![make_block(id_a, "A", ""), make_block(id_b, "B", "")]);
    v1.graph.edges = vec![e1, e2];
    let mut v2 = with_blocks(vec![make_block(id_a, "A", ""), make_block(id_b, "B", "")]);
    v2.graph.edges = vec![e2, e1];
    assert_eq!(compute(&v1), compute(&v2));
}

#[test]
fn documents_affect_checksum() {
    let id_a = u("00000000-0000-4000-a000-000000000001");
    let id_b = u("00000000-0000-4000-a000-000000000002");
    let doc_id = u("00000000-0000-4000-a000-0000000000d1");
    let v1 = with_blocks(vec![make_block(id_a, "A", ""), make_block(id_b, "B", "")]);
    let mut v2 = with_blocks(vec![make_block(id_a, "A", ""), make_block(id_b, "B", "")]);
    v2.documents.push(Document {
        id: doc_id,
        root: id_a,
        sections: vec![Section { block: id_b, subsections: vec![] }],
    });
    assert_ne!(compute(&v1), compute(&v2));
}

#[test]
fn document_section_order_affects_checksum() {
    let id_a = u("00000000-0000-4000-a000-000000000001");
    let id_b = u("00000000-0000-4000-a000-000000000002");
    let id_c = u("00000000-0000-4000-a000-000000000003");
    let doc_id = u("00000000-0000-4000-a000-0000000000d1");
    let mut v1 = empty_vault();
    v1.documents.push(Document {
        id: doc_id,
        root: id_a,
        sections: vec![
            Section { block: id_b, subsections: vec![] },
            Section { block: id_c, subsections: vec![] },
        ],
    });
    let mut v2 = empty_vault();
    v2.documents.push(Document {
        id: doc_id,
        root: id_a,
        sections: vec![
            Section { block: id_c, subsections: vec![] },
            Section { block: id_b, subsections: vec![] },
        ],
    });
    assert_ne!(compute(&v1), compute(&v2));
}

#[test]
fn timestamps_do_not_affect_checksum() {
    let id = u("00000000-0000-4000-a000-000000000001");
    let v1 = with_blocks(vec![make_block(id, "A", "content")]);
    let mut block = make_block(id, "A", "content");
    block.created = Timestamp::from_unix(0, 0).unwrap();
    block.modified = Timestamp::from_unix(0, 0).unwrap();
    let v2 = with_blocks(vec![block]);
    assert_eq!(compute(&v1), compute(&v2));
}

#[test]
fn names_do_not_affect_checksum() {
    let id = u("00000000-0000-4000-a000-000000000001");
    let v1 = with_blocks(vec![make_block(id, "A", "content")]);
    let mut v2 = with_blocks(vec![make_block(id, "A", "content")]);
    v2.names.push(("A".to_string(), id));
    assert_eq!(compute(&v1), compute(&v2));
}

#[test]
fn drift_detected_against_manifest() {
    let mut v = empty_vault();
    assert!(is_drifted(&v));
    v.manifest.checksum = compute(&v);
    assert!(!is_drifted(&v));
}

fn minimal_vault(checksum: &str) -> Vault {
    let mut v = empty_vault();
    v.manifest.checksum = checksum.to_string();
    v
}

#[test]
fn allow_mutation_with_matching_expected_checksum() {
    let vault = minimal_vault("sha256:abc");
    assert!(mutation_gate(&vault, Some("sha256:abc")).is_ok());
}

#[test]
fn allow_mutation_returns_stale_state_when_expected_mismatches() {
    let vault = minimal_vault("sha256:actual");
    let err = mutation_gate(&vault, Some("sha256:stale")).unwrap_err();
    match &err {
        DomainError::StaleState { expected, actual } => {
            assert_eq!(expected, "sha256:stale");
            assert_eq!(actual, "sha256:actual");
        }
        _ => panic!("expected StaleState, got {:?}", err),
    }
}

#[test]
fn gate_allows_drifted_but_valid_vault() {
    let vault = minimal_vault("sha256:whatever");
    assert!(mutation_gate(&vault, None).is_ok());
}

#[test]
fn gate_requires_remediation_of_drifted_invalid_vault() {
    let id = u("00000000-0000-4000-a000-000000000001");
    let mut vault = with_blocks(vec![make_block(id, "", "# Heading")]);
    vault.manifest.checksum = "sha256:old".to_string();
    match mutation_gate(&vault, None) {
        Err(DomainError::RemediationRequired(n)) => assert_eq!(n, 2),
        other => panic!("expected RemediationRequired, got {:?}", other),
    }
}

#[test]
fn gate_allows_undrifted_vault_without_validating() {
    let id = u("00000000-0000-4000-a000-000000000001");
    let mut vault = with_blocks(vec![make_block(id, "", "# Heading")]);
    vault.manifest.checksum = compute(&vault);
    assert!(mutation_gate(&vault, None).is_ok());
}

#[test]
fn committed_vault_is_not_drifted() {
    let a = u("00000000-0000-4000-a000-000000000001");
    let mut v = empty_vault();
    v.manifest.checksum = GENESIS_CHECKSUM.to_string();
    let after = apply_writes_to_vault(&v, &vec![VaultWrite::WriteBlock(make_block(a, "Alpha", "text"))]);
    assert!(is_drifted(&after));
    let mut committed = after;
    committed.manifest = portablenote::commit::committed_manifest(&committed);
    assert!(!is_drifted(&committed));
    assert_eq!(committed.manifest.previous_checksum.as_deref(), Some(GENESIS_CHECKSUM));
}

#[test]
fn vault_gate_refuses_a_stale_checksum() {
    let mut v = empty_vault();
    v.manifest.checksum = compute(&v);
    assert!(v.allow_mutation(None).is_ok());
    assert!(v.allow_mutation(Some(v.manifest.checksum.clone())).is_ok());
    assert!(matches!(v.allow_mutation(Some("sha256:old".to_string())), Err(DomainError::StaleState { .. })));
}

#[test]
fn vault_stores_find_blocks_and_documents_by_id() {
    let a = u("00000000-0000-4000-a000-000000000001");
    let d = u("00000000-0000-4000-a000-0000000000d1");
    let mut v = empty_vault();
    v.blocks = vec![make_block(a, "Alpha", "text")];
    v.documents = vec![Document { id: d, root: a, sections: vec![] }];
    assert_eq!(BlockStore::get(&v, a).unwrap().name, "Alpha");
    assert!(BlockStore::get(&v, d).is_none());
    assert_eq!(DocumentStore::get(&v, d).unwrap().root, a);
    assert!(DocumentStore::get(&v, a).is_none());
}

#[test]
fn checksum_ignores_the_storage_order_of_blocks_and_documents() {
    let a = u("00000000-0000-4000-a000-000000000001");
    let b = u("00000000-0000-4000-a000-000000000002");
    let d1 = u("00000000-0000-4000-a000-0000000000d1");
    let d2 = u("00000000-0000-4000-a000-0000000000d2");
    let mut sorted = empty_vault();
    sorted.blocks = vec![make_block(a, "Alpha", "one"), make_block(b, "Beta", "two")];
    sorted.documents = vec![
        Document { id: d1, root: a, sections: vec![] },
        Document { id: d2, root: b, sections: vec![] },
    ];
    let mut shuffled = empty_vault();
    shuffled.blocks = vec![make_block(b, "Beta", "two"), make_block(a, "Alpha", "one")];
    shuffled.documents = vec![
        Document { id: d2, root: b, sections: vec![] },
        Document { id: d1, root: a, sections: vec![] },
    ];
    assert_eq!(compute(&sorted), compute(&shuffled));
}

#[test]
fn two_commits_chain_their_checksums() {
    let a = u("00000000-0000-4000-a000-000000000001");
    let b = u("00000000-0000-4000-a000-000000000002");
    let mut v = empty_vault();
    v.manifest.checksum = GENESIS_CHECKSUM.to_string();
    let mut first = apply_writes_to_vault(&v, &vec![VaultWrite::WriteBlock(make_block(a, "First", "one"))]);
    first.manifest = portablenote::commit::committed_manifest(&first);
    let mut second = apply_writes_to_vault(&first, &vec![VaultWrite::WriteBlock(make_block(b, "Second", "two"))]);
    second.manifest = portablenote::commit::committed_manifest(&second);
    assert_eq!(first.manifest.checksum, compute(&first));
    assert_eq!(second.manifest.checksum, compute(&second));
    assert_eq!(second.manifest.previous_checksum.as_deref(), Some(first.manifest.checksum.as_str()));
}
