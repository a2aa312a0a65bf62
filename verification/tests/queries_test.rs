use portablenote::queries::{backlinks, edges_for, list_blocks, orphans, resolve_name};
use portablenote::time::Timestamp;
use portablenote::types::{Block, BlockGraph, Edge, Manifest, Vault};
use uuid::Uuid;

fn u(s: &str) -> u128 {
    Uuid::parse_str(s).unwrap().as_u128()
}

fn make_block(id: u128, name: &str) -> Block {
    Block {
        id,
        name: name.to_string(),
        content: String::new(),
        created: Timestamp::now(),
        modified: Timestamp::now(),
    }
}

fn empty_vault() -> Vault {
    Vault {
        manifest: Manifest {
            vault_id: 0,
            spec_version: "0.1.0".to_string(),
            format: "portablenote".to_string(),
            checksum: String::new(),
            previous_checksum: None,
        },
        blocks: Vec::new(),
        graph: BlockGraph { version: "0.1.0".to_string(), edges: Vec::new() },
        documents: Vec::new(),
        names: Vec::new(),
        version: 0,
    }
}

fn two_block_vault() -> Vault {
    let a = u("00000000-0000-4000-a000-000000000001");
    let b = u("00000000-0000-4000-a000-000000000002");
    let edge_id = u("00000000-0000-4000-a000-0000000000e1");
    let mut v = empty_vault();
    v.names = vec![("Alpha".to_string(), a), ("Beta".to_string(), b)];
    v.blocks = vec![make_block(a, "Alpha"), make_block(b, "Beta")];
    v.graph.edges = vec![Edge { id: edge_id, source: a, target: b }];
    v
}

#[test]
fn resolve_name_hit() {
    let vault = two_block_vault();
    let id = resolve_name(&vault, "Alpha").unwrap();
    assert_eq!(id, u("00000000-0000-4000-a000-000000000001"));
}

#[test]
fn resolve_name_miss() {
    let vault = two_block_vault();
    assert!(resolve_name(&vault, "Nonexistent").is_none());
}

#[test]
fn resolve_name_empty_vault() {
    let vault = empty_vault();
    assert!(resolve_name(&vault, "Anything").is_none());
}

#[test]
fn resolve_name_is_case_sensitive() {
    let vault = two_block_vault();
    assert!(resolve_name(&vault, "alpha").is_none());
}

#[test]
fn edges_for_source() {
    let vault = two_block_vault();
    let a = u("00000000-0000-4000-a000-000000000001");
    let (out, inc) = edges_for(&vault, a);
    assert_eq!(out.len(), 1);
    assert_eq!(inc.len(), 0);
}

#[test]
fn edges_for_target() {
    let vault = two_block_vault();
    let b = u("00000000-0000-4000-a000-000000000002");
    let (out, inc) = edges_for(&vault, b);
    assert_eq!(out.len(), 0);
    assert_eq!(inc.len(), 1);
}

#[test]
fn edges_for_unconnected() {
    let vault = empty_vault();
    let bogus = u("00000000-0000-4000-a000-ffffffffffff");
    let (out, inc) = edges_for(&vault, bogus);
    assert!(out.is_empty());
    assert!(inc.is_empty());
}

#[test]
fn orphans_all_connected() {
    let vault = two_block_vault();
    assert!(orphans(&vault).is_empty());
}

#[test]
fn orphans_with_isolated_block() {
    let mut vault = two_block_vault();
    let c = u("00000000-0000-4000-a000-000000000003");
    vault.blocks.push(make_block(c, "Gamma"));
    let result = orphans(&vault);
    assert_eq!(result, vec![c]);
}

#[test]
fn orphans_empty_vault() {
    let vault = empty_vault();
    assert!(orphans(&vault).is_empty());
}

#[test]
fn queries_list_blocks_count() {
    let vault = two_block_vault();
    assert_eq!(list_blocks(&vault).len(), 2);
}

#[test]
fn list_blocks_empty() {
    let vault = empty_vault();
    assert!(list_blocks(&vault).is_empty());
}

#[test]
fn backlinks_with_incoming() {
    let vault = two_block_vault();
    let a = u("00000000-0000-4000-a000-000000000001");
    let b = u("00000000-0000-4000-a000-000000000002");
    let sources = backlinks(&vault, b);
    assert_eq!(sources, vec![a]);
}

#[test]
fn backlinks_with_none() {
    let vault = two_block_vault();
    let a = u("00000000-0000-4000-a000-000000000001");
    assert!(backlinks(&vault, a).is_empty());
}

#[test]
fn backlinks_unknown_block() {
    let vault = two_block_vault();
    let bogus = u("00000000-0000-4000-a000-ffffffffffff");
    assert!(backlinks(&vault, bogus).is_empty());
}
