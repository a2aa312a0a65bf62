use portablenote::checksum::compute;
use portablenote::commit::committed_manifest;
use portablenote::error::DomainError;
use portablenote::journal::{
    apply_writes_to_vault, build_before_image, build_journal, expected_checksum_after_writes,
    plan_recovery, recovery_case, undo_writes_from_journal, BeforeImageEntry, Journal,
    RecoveryCase, RecoveryError,
};
use portablenote::ports::MutationGate;
use portablenote::results::VaultWrite;
use portablenote::time::Timestamp;
use portablenote::types::{Block, BlockGraph, Document, Edge, Manifest, Vault};
use portablenote::use_cases::{add_block, init_vault};
use uuid::Uuid;

fn u(s: &str) -> u128 {
    Uuid::parse_str(s).unwrap().as_u128()
}

fn now() -> Timestamp {
    Timestamp::parse("2026-05-01T00:00:00Z").unwrap()
}

fn block(id: u128, name: &str, content: &str) -> Block {
    Block { id, name: name.to_string(), content: content.to_string(), created: now(), modified: now() }
}

/// A freshly initialised vault with its genesis manifest.
fn genesis() -> Vault {
    let init = init_vault::execute(Some(7));
    Vault {
        manifest: init.manifest,
        blocks: vec![],
        graph: init.graph,
        documents: vec![],
        names: vec![],
        version: 0,
    }
}

/// Commit `writes`: apply them and record the new state in the manifest.
fn commit(v: &Vault, writes: &Vec<VaultWrite>) -> Vault {
    let mut after = apply_writes_to_vault(v, writes);
    after.manifest = committed_manifest(&after);
    after
}

/// A vault with block Alpha added and committed.
fn with_alpha() -> Vault {
    let v = genesis();
    let r = add_block::execute(&v, now(), u("10000000-0000-4000-a000-000000000001"), "Alpha", "hello").unwrap();
    commit(&v, &r.writes)
}

#[test]
fn manifest_checksum_updated_after_add_block() {
    let v = genesis();
    let r = add_block::execute(&v, now(), 1, "TestBlock", "some content").unwrap();
    let after = commit(&v, &r.writes);
    assert_eq!(after.manifest.checksum, compute(&after));
    assert_eq!(after.manifest.previous_checksum.as_deref(), Some(init_vault::GENESIS_CHECKSUM));
}

#[test]
fn manifest_checksum_chain_after_two_adds() {
    let v = genesis();
    let r1 = add_block::execute(&v, now(), 1, "First", "one").unwrap();
    let v1 = commit(&v, &r1.writes);
    let first = v1.manifest.checksum.clone();
    let r2 = add_block::execute(&v1, now(), 2, "Second", "two").unwrap();
    let v2 = commit(&v1, &r2.writes);
    assert_eq!(v2.manifest.previous_checksum.as_deref(), Some(first.as_str()));
    assert_eq!(v2.manifest.checksum, compute(&v2));
    assert_ne!(v2.manifest.checksum, first);
}

#[test]
fn journal_records_expected_checksum_and_before_image() {
    let v = with_alpha();
    let beta = block(u("99999999-0000-4000-a000-000000000099"), "Beta", "world");
    let writes = vec![
        VaultWrite::WriteBlock(beta.clone()),
        VaultWrite::SetName { name: "Beta".to_string(), id: beta.id },
    ];
    let j = build_journal(&v, &writes);
    assert_eq!(j.expected_checksum, expected_checksum_after_writes(&v, &writes));
    assert_eq!(j.expected_checksum, compute(&apply_writes_to_vault(&v, &writes)));
    assert!(matches!(j.before_image[0], BeforeImageEntry::Block { data: None }));
    assert!(matches!(&j.before_image[1], BeforeImageEntry::Name { name, id: None } if name == "Beta"));
    assert_eq!(j.writes.len(), 2);
}

#[test]
fn before_image_holds_existing_artifacts() {
    let v = with_alpha();
    let alpha = v.blocks[0].clone();
    let writes = vec![
        VaultWrite::DeleteBlock(alpha.id),
        VaultWrite::RemoveName("Alpha".to_string()),
    ];
    let bi = build_before_image(&v, &writes);
    assert!(matches!(&bi[0], BeforeImageEntry::Block { data: Some(b) } if b.id == alpha.id && b.content == "hello"));
    assert!(matches!(&bi[1], BeforeImageEntry::Name { id: Some(x), .. } if *x == alpha.id));
}

#[test]
fn recovery_deletes_journal_when_no_writes_landed() {
    let v = with_alpha();
    let beta = block(u("99999999-0000-4000-a000-000000000099"), "Beta", "world");
    let writes = vec![VaultWrite::WriteBlock(beta)];
    let j = build_journal(&v, &writes);
    let plan = plan_recovery(&v, &j).unwrap();
    assert_eq!(plan.case, RecoveryCase::B);
    assert!(plan.undo.is_empty());
    assert!(plan.manifest.is_none());
}

#[test]
fn recovery_case_a_rewrites_manifest_when_writes_landed() {
    let v = with_alpha();
    let pre_checksum = v.manifest.checksum.clone();
    let new_id = u("99999999-0000-4000-a000-000000000099");
    let writes = vec![
        VaultWrite::WriteBlock(block(new_id, "Beta", "world")),
        VaultWrite::SetName { name: "Beta".to_string(), id: new_id },
    ];
    let j = build_journal(&v, &writes);
    let landed = apply_writes_to_vault(&v, &writes);
    let expected_checksum = compute(&landed);
    assert_ne!(landed.manifest.checksum, expected_checksum);
    let plan = plan_recovery(&landed, &j).unwrap();
    assert_eq!(plan.case, RecoveryCase::A);
    let m = plan.manifest.unwrap();
    assert_eq!(m.checksum, expected_checksum);
    assert_eq!(m.previous_checksum.as_deref(), Some(pre_checksum.as_str()));
}

#[test]
fn recovery_case_c_undoes_partial_writes() {
    let v = with_alpha();
    let manifest_checksum = v.manifest.checksum.clone();
    let gamma = block(u("99999999-0000-4000-a000-000000000099"), "Gamma", "partial");
    let delta = block(u("99999999-0000-4000-a000-0000000000aa"), "Delta", "also partial");
    let writes = vec![VaultWrite::WriteBlock(gamma.clone()), VaultWrite::WriteBlock(delta.clone())];
    let j = build_journal(&v, &writes);
    let partial = apply_writes_to_vault(&v, &vec![VaultWrite::WriteBlock(gamma.clone())]);
    let actual = compute(&partial);
    assert_ne!(actual, manifest_checksum);
    assert_ne!(actual, j.expected_checksum);
    let plan = plan_recovery(&partial, &j).unwrap();
    assert_eq!(plan.case, RecoveryCase::C);
    let mut recovered = apply_writes_to_vault(&partial, &plan.undo);
    assert!(recovered.get_block(gamma.id).is_none());
    assert!(recovered.get_block(delta.id).is_none());
    assert_eq!(compute(&recovered), manifest_checksum);
    recovered.manifest = plan.manifest.unwrap();
    assert_eq!(recovered.manifest.checksum, manifest_checksum);
    assert!(recovered.manifest.previous_checksum.is_some());
}

#[test]
fn recovery_case_c_restores_replaced_and_deleted_artifacts() {
    let mut v = with_alpha();
    v.graph.edges.push(Edge { id: 50, source: v.blocks[0].id, target: v.blocks[0].id });
    v.documents.push(Document { id: 60, root: v.blocks[0].id, sections: vec![] });
    v.manifest.checksum = compute(&v);
    let alpha_id = v.blocks[0].id;
    let writes = vec![
        VaultWrite::WriteBlock(block(alpha_id, "Alpha", "rewritten")),
        VaultWrite::RemoveEdge(50),
        VaultWrite::DeleteDocument(60),
        VaultWrite::RemoveName("Alpha".to_string()),
        VaultWrite::SetName { name: "Renamed".to_string(), id: alpha_id },
    ];
    let j = build_journal(&v, &writes);
    for landed in 1..writes.len() {
        let crashed = apply_writes_to_vault(&v, &writes[..landed].to_vec());
        let plan = plan_recovery(&crashed, &j).unwrap();
        let restored = apply_writes_to_vault(&crashed, &plan.undo);
        if landed < 3 {
            assert_eq!(plan.case, RecoveryCase::C, "landed {landed}");
            assert_eq!(compute(&restored), v.manifest.checksum, "landed {landed}");
            assert_eq!(restored.get_block(alpha_id).unwrap().content, "hello");
            assert!(restored.edge_with_id(50).is_some());
            assert!(restored.get_document(60).is_some());
            assert_eq!(restored.resolve_name("Alpha"), Some(alpha_id));
            assert_eq!(restored.resolve_name("Renamed"), None);
        } else {
            // Only name-index writes are missing; the checksum does not cover the name
            // index, so the state already has the expected checksum (case A).
            assert_eq!(plan.case, RecoveryCase::A, "landed {landed}");
            assert_eq!(plan.manifest.unwrap().checksum, compute(&crashed));
        }
    }
}

#[test]
fn undo_of_mismatched_journal_is_refused() {
    let v = with_alpha();
    let j = Journal {
        expected_checksum: "sha256:none".to_string(),
        before_image: vec![BeforeImageEntry::Edge { data: None }],
        writes: vec![VaultWrite::WriteBlock(block(5, "Five", ""))],
    };
    let undo = undo_writes_from_journal(&j);
    assert_eq!(undo.skipped, 1);
    assert!(undo.writes.is_empty());
    let crashed = apply_writes_to_vault(&v, &j.writes);
    match plan_recovery(&crashed, &j) {
        Err(RecoveryError::CorruptJournal(1)) => {}
        other => panic!("expected CorruptJournal, got {:?}", other.err()),
    }
}

#[test]
fn undo_counts_writes_without_before_image() {
    let j = Journal {
        expected_checksum: String::new(),
        before_image: vec![],
        writes: vec![VaultWrite::DeleteBlock(1), VaultWrite::DeleteBlock(2)],
    };
    assert_eq!(undo_writes_from_journal(&j).skipped, 2);
}

#[test]
fn recovery_case_is_decided_in_order() {
    let j = Journal { expected_checksum: "sha256:b".to_string(), before_image: vec![], writes: vec![] };
    assert_eq!(recovery_case("sha256:b", &j, "sha256:b"), RecoveryCase::A);
    assert_eq!(recovery_case("sha256:a", &j, "sha256:a"), RecoveryCase::B);
    assert_eq!(recovery_case("sha256:c", &j, "sha256:a"), RecoveryCase::C);
}

#[test]
fn mutation_gate_returns_stale_state_when_expected_checksum_mismatches() {
    let v = with_alpha();
    let actual_checksum = v.manifest.checksum.clone();
    assert!(!actual_checksum.is_empty());
    assert!(v.allow_mutation(Some(actual_checksum.clone())).is_ok());
    match v.allow_mutation(Some("sha256:stale_expected".to_string())) {
        Err(DomainError::StaleState { expected, actual }) => {
            assert_eq!(expected.as_str(), "sha256:stale_expected");
            assert_eq!(actual.as_str(), actual_checksum.as_str());
        }
        other => panic!("expected StaleState, got {:?}", other),
    }
}

#[test]
fn apply_writes_keeps_heap_in_id_order_and_names_unique() {
    let v = genesis();
    let writes = vec![
        VaultWrite::WriteBlock(block(3, "C", "")),
        VaultWrite::WriteBlock(block(1, "A", "")),
        VaultWrite::WriteBlock(block(2, "B", "")),
        VaultWrite::SetName { name: "A".to_string(), id: 1 },
        VaultWrite::SetName { name: "A".to_string(), id: 9 },
        VaultWrite::WriteEdge(Edge { id: 5, source: 1, target: 2 }),
        VaultWrite::WriteEdge(Edge { id: 5, source: 2, target: 3 }),
    ];
    let after = apply_writes_to_vault(&v, &writes);
    let ids: Vec<u128> = after.blocks.iter().map(|b| b.id).collect();
    assert_eq!(ids, vec![1, 2, 3]);
    assert_eq!(after.names.len(), 1);
    assert_eq!(after.resolve_name("A"), Some(9));
    assert_eq!(after.graph.edges, vec![Edge { id: 5, source: 2, target: 3 }]);
    let _ = Manifest {
        vault_id: 0,
        spec_version: String::new(),
        format: String::new(),
        checksum: String::new(),
        previous_checksum: None,
    };
    let _ = BlockGraph { version: String::new(), edges: vec![] };
}

#[test]
fn recovery_that_cannot_restore_still_hands_back_the_undo_writes() {
    let mut v = with_alpha();
    v.manifest.checksum = "sha256:not-this-vault".to_string();
    let beta = block(u("20000000-0000-4000-a000-000000000002"), "Beta", "two");
    let journal = Journal {
        expected_checksum: "sha256:not-this-either".to_string(),
        before_image: vec![BeforeImageEntry::Block { data: None }],
        writes: vec![VaultWrite::WriteBlock(beta)],
    };
    match plan_recovery(&v, &journal) {
        Err(RecoveryError::NotRestored { undo, expected, .. }) => {
            assert_eq!(undo.len(), 1);
            assert!(matches!(undo[0], VaultWrite::DeleteBlock(id) if id == u("20000000-0000-4000-a000-000000000002")));
            assert_eq!(expected, "sha256:not-this-vault");
        }
        _ => panic!("expected NotRestored"),
    }
}
