//! The reference vaults of the format (minimal, with-refs, with-documents,
//! with-orphans), built in memory, checked by the validator, the queries and the
//! checksum.

use portablenote::checksum::{compute, is_drifted};
use portablenote::invariants::validate_vault;
use portablenote::queries::{backlinks, edges_for, list_blocks, orphans, resolve_name};
use portablenote::time::Timestamp;
use portablenote::types::{Block, BlockGraph, Document, Edge, Manifest, Section, Subsection, Vault};
use uuid::Uuid;

fn u(s: &str) -> u128 {
    Uuid::parse_str(s).unwrap().as_u128()
}

fn block(id: &str, name: &str, content: &str) -> Block {
    let t = Timestamp::parse("2026-03-01T00:00:00Z").unwrap();
    Block { id: u(id), name: name.to_string(), content: content.to_string(), created: t, modified: t }
}

fn vault(blocks: Vec<Block>, edges: Vec<Edge>, documents: Vec<Document>) -> Vault {
    let names = blocks.iter().map(|b| (b.name.clone(), b.id)).collect();
    let mut v = Vault {
        manifest: Manifest {
            vault_id: u("00000000-0000-4000-a000-0000000000aa"),
            spec_version: "0.1.0".to_string(),
            format: "markdown".to_string(),
            checksum: String::new(),
            previous_checksum: None,
        },
        blocks,
        graph: BlockGraph { version: "0.1.0".to_string(), edges },
        documents,
        names,
        version: 0,
    };
    v.manifest.checksum = compute(&v);
    v
}

fn minimal_vault() -> Vault {
    vault(
        vec![block(
            "10000000-0000-4000-a000-000000000001",
            "Welcome",
            "This is a minimal PortableNote vault.\n",
        )],
        vec![],
        vec![],
    )
}

const CORE: &str = "20000000-0000-4000-a000-000000000001";
const STARTED: &str = "20000000-0000-4000-a000-000000000002";
const ADVANCED: &str = "20000000-0000-4000-a000-000000000003";

fn with_refs_vault() -> Vault {
    vault(
        vec![
            block(
                CORE,
                "Core Concepts",
                &format!(
                    "See [[Getting Started]] first, then [[Advanced Topics]].\n\n<!-- refs -->\n[Getting Started]: uuid:{STARTED}\n[Advanced Topics]: uuid:{ADVANCED}\n"
                ),
            ),
            block(STARTED, "Getting Started", "Install and open a vault.\n"),
            block(ADVANCED, "Advanced Topics", "Documents and edges.\n"),
        ],
        vec![
            Edge { id: u("21000000-0000-4000-a000-000000000001"), source: u(CORE), target: u(STARTED) },
            Edge { id: u("21000000-0000-4000-a000-000000000002"), source: u(CORE), target: u(ADVANCED) },
        ],
        vec![],
    )
}

fn with_documents_vault() -> Vault {
    let root = "30000000-0000-4000-a000-000000000001";
    let intro = "30000000-0000-4000-a000-000000000002";
    let body = "30000000-0000-4000-a000-000000000003";
    let detail = "30000000-0000-4000-a000-000000000004";
    vault(
        vec![
            block(root, "Guide", "A guide in three parts.\n"),
            block(intro, "Introduction", "Why this guide.\n"),
            block(body, "Main Part", "The main part.\n"),
            block(detail, "Details", "The details.\n"),
        ],
        vec![Edge { id: u("31000000-0000-4000-a000-000000000001"), source: u(root), target: u(intro) }],
        vec![Document {
            id: u("32000000-0000-4000-a000-000000000001"),
            root: u(root),
            sections: vec![
                Section { block: u(intro), subsections: vec![] },
                Section { block: u(body), subsections: vec![Subsection { block: u(detail) }] },
            ],
        }],
    )
}

fn with_orphans_vault() -> Vault {
    vault(
        vec![
            block("40000000-0000-4000-a000-000000000001", "Connected A", "Links onward.\n"),
            block("40000000-0000-4000-a000-000000000002", "Connected B", "Linked to.\n"),
            block("40000000-0000-4000-a000-000000000003", "Orphan", "Nothing links here.\n"),
        ],
        vec![Edge {
            id: u("41000000-0000-4000-a000-000000000001"),
            source: u("40000000-0000-4000-a000-000000000001"),
            target: u("40000000-0000-4000-a000-000000000002"),
        }],
        vec![],
    )
}

#[test]
fn valid_with_refs_passes_all_invariants() {
    let violations = validate_vault(&with_refs_vault());
    assert!(violations.is_empty(), "with-refs vault should have no violations, got: {violations:?}");
}

#[test]
fn valid_with_documents_passes_all_invariants() {
    let violations = validate_vault(&with_documents_vault());
    assert!(
        violations.is_empty(),
        "with-documents vault should have no violations, got: {violations:?}"
    );
}

#[test]
fn valid_vaults_have_no_drift() {
    for v in [minimal_vault(), with_refs_vault(), with_documents_vault(), with_orphans_vault()] {
        assert!(!is_drifted(&v));
    }
}

#[test]
fn bad_checksum_vault_is_detected_as_drifted() {
    let mut v = minimal_vault();
    v.manifest.checksum =
        "sha256:0000000000000000000000000000000000000000000000000000000000000000".to_string();
    assert!(is_drifted(&v), "bad-checksum vault should be detected as drifted at load time");
}

#[test]
fn resolve_name_existing() {
    let id = resolve_name(&with_refs_vault(), "Core Concepts");
    assert!(id.is_some());
    assert_eq!(id.unwrap(), u(CORE));
}

#[test]
fn resolve_name_missing() {
    assert!(resolve_name(&with_refs_vault(), "Nonexistent Block").is_none());
}

#[test]
fn edges_for_block_with_outgoing() {
    let (outgoing, incoming) = edges_for(&with_refs_vault(), u(CORE));
    assert_eq!(outgoing.len(), 2, "Core Concepts has 2 outgoing edges");
    assert_eq!(incoming.len(), 0, "Core Concepts has 0 incoming edges");
}

#[test]
fn edges_for_block_with_incoming() {
    let (outgoing, incoming) = edges_for(&with_refs_vault(), u(STARTED));
    assert_eq!(outgoing.len(), 0);
    assert_eq!(incoming.len(), 1);
    assert_eq!(incoming[0].source, u(CORE));
}

#[test]
fn orphans_in_with_orphans_vault() {
    let orphan_ids = orphans(&with_orphans_vault());
    assert_eq!(orphan_ids.len(), 1, "Should have exactly one orphan");
    assert_eq!(orphan_ids[0], u("40000000-0000-4000-a000-000000000003"));
}

#[test]
fn orphans_in_minimal_vault() {
    assert_eq!(orphans(&minimal_vault()).len(), 1, "Single block with no edges is an orphan");
}

#[test]
fn orphans_in_with_refs_vault() {
    let orphan_ids = orphans(&with_refs_vault());
    assert!(orphan_ids.is_empty(), "All blocks in with-refs are connected: {orphan_ids:?}");
}

#[test]
fn queries_test_list_blocks_count() {
    assert_eq!(list_blocks(&with_refs_vault()).len(), 3);
}

#[test]
fn backlinks_for_target() {
    let sources = backlinks(&with_refs_vault(), u(STARTED));
    assert_eq!(sources.len(), 1);
    assert_eq!(sources[0], u(CORE));
}

#[test]
fn backlinks_for_block_with_none() {
    assert!(backlinks(&with_refs_vault(), u(CORE)).is_empty());
}
