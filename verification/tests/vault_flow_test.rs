use portablenote::error::{DomainError, ViolationDetails};
use portablenote::invariants::validate_vault;
use portablenote::journal::apply_writes_to_vault;
use portablenote::queries::{edges_for, resolve_name};
use portablenote::results::VaultWrite;
use portablenote::time::Timestamp;
use portablenote::types::{Block, BlockGraph, Document, Edge, Manifest, Section, Vault};
use portablenote::use_cases::{
    add_block, add_document, add_edge, append_section, delete_block_cascade, delete_block_safe,
    delete_document, remove_edge, rename_block, reorder_sections,
};
use uuid::Uuid;

fn uuid(s: &str) -> u128 {
    Uuid::parse_str(s).unwrap().as_u128()
}

fn ts() -> Timestamp {
    Timestamp::parse("2026-03-01T00:00:00Z").unwrap()
}

fn now() -> Timestamp {
    Timestamp::parse("2026-05-01T00:00:00Z").unwrap()
}

const CORE: &str = "20000000-0000-4000-a000-000000000001";
const STARTED: &str = "20000000-0000-4000-a000-000000000002";
const ADVANCED: &str = "20000000-0000-4000-a000-000000000003";

fn block(id: &str, name: &str, content: &str) -> Block {
    Block { id: uuid(id), name: name.to_string(), content: content.to_string(), created: ts(), modified: ts() }
}

/// Three blocks: Core Concepts references the two others, inline and by edges.
fn with_refs() -> Vault {
    let core = block(
        CORE,
        "Core Concepts",
        &format!(
            "See [[Getting Started]] and [[Advanced Topics]].\n\n<!-- refs -->\n[Getting Started]: uuid:{STARTED}\n[Advanced Topics]: uuid:{ADVANCED}\n"
        ),
    );
    let started = block(STARTED, "Getting Started", "First steps.");
    let advanced = block(ADVANCED, "Advanced Topics", "Deeper material.");
    Vault {
        manifest: Manifest {
            vault_id: 1,
            spec_version: "0.1.0".to_string(),
            format: "markdown".to_string(),
            checksum: String::new(),
            previous_checksum: None,
        },
        blocks: vec![core, started, advanced],
        graph: BlockGraph {
            version: "0.1.0".to_string(),
            edges: vec![
                Edge { id: uuid("30000000-0000-4000-a000-000000000001"), source: uuid(CORE), target: uuid(STARTED) },
                Edge { id: uuid("30000000-0000-4000-a000-000000000002"), source: uuid(CORE), target: uuid(ADVANCED) },
            ],
        },
        documents: vec![Document {
            id: uuid("40000000-0000-4000-a000-000000000001"),
            root: uuid(CORE),
            sections: vec![Section { block: uuid(STARTED), subsections: vec![] }],
        }],
        names: vec![
            ("Core Concepts".to_string(), uuid(CORE)),
            ("Getting Started".to_string(), uuid(STARTED)),
            ("Advanced Topics".to_string(), uuid(ADVANCED)),
        ],
        version: 0,
    }
}

#[test]
fn with_refs_vault_passes_all_invariants() {
    let violations = validate_vault(&with_refs());
    assert!(violations.is_empty(), "{:?}", violations);
}

#[test]
fn add_block_round_trip() {
    let stores = with_refs();
    let new_id = uuid("aaaaaaaa-0000-4000-a000-000000000001");
    assert_eq!(stores.blocks.len(), 3);
    assert!(resolve_name(&stores, "New Block").is_none());
    let result = add_block::execute(&stores, now(), new_id, "New Block", "hello world").unwrap();
    assert!(matches!(&result.writes[0], VaultWrite::WriteBlock(b) if b.id == new_id));
    assert_eq!(result.event.name, "New Block");
    let after = apply_writes_to_vault(&stores, &result.writes);
    assert_eq!(after.blocks.len(), 4);
    assert!(after.get_block(new_id).is_some());
    assert_eq!(resolve_name(&after, "New Block"), Some(new_id));
    assert!(validate_vault(&after).is_empty());
}

#[test]
fn add_block_rejects_duplicate_name() {
    let stores = with_refs();
    let new_id = uuid("aaaaaaaa-0000-4000-a000-000000000002");
    let result = add_block::execute(&stores, now(), new_id, "Core Concepts", "dup");
    assert!(matches!(result, Err(DomainError::NameConflict(_, _))));
}

#[test]
fn rename_block_propagates_refs() {
    let stores = with_refs();
    let started = uuid(STARTED);
    let core = uuid(CORE);
    let result = rename_block::execute(&stores, now(), started, "Quick Start").unwrap();
    assert!(matches!(&result.writes[0], VaultWrite::WriteBlock(b) if b.name == "Quick Start"));
    assert_eq!(result.event.old_name, "Getting Started");
    assert_eq!(result.event.refs_updated, 1);
    let after = apply_writes_to_vault(&stores, &result.writes);
    assert_eq!(after.get_block(started).unwrap().name, "Quick Start");
    assert!(resolve_name(&after, "Getting Started").is_none());
    assert_eq!(resolve_name(&after, "Quick Start"), Some(started));
    let referrer = after.get_block(core).unwrap();
    assert!(referrer.content.contains("[[Quick Start]]"), "{}", referrer.content);
    assert!(!referrer.content.contains("[[Getting Started]]"), "{}", referrer.content);
    assert!(validate_vault(&after).is_empty());
}

#[test]
fn delete_block_safe_rejects_with_incoming_edges() {
    let stores = with_refs();
    let result = delete_block_safe::execute(&stores, now(), uuid(STARTED));
    assert!(matches!(result, Err(DomainError::HasIncomingEdges(_, 1))));
}

#[test]
fn delete_block_safe_succeeds_for_source_only_block() {
    let stores = with_refs();
    let core = uuid(CORE);
    let result = delete_block_safe::execute(&stores, now(), core).unwrap();
    assert_eq!(result.event.block_id, core);
    let outgoing = result.writes.iter().filter(|w| matches!(w, VaultWrite::RemoveEdge(_))).count();
    assert_eq!(outgoing, 2);
    assert!(result.writes.iter().any(|w| matches!(w, VaultWrite::RemoveName(n) if n == "Core Concepts")));
    let after = apply_writes_to_vault(&stores, &result.writes);
    assert!(after.get_block(core).is_none());
    assert!(resolve_name(&after, "Core Concepts").is_none());
    assert_eq!(after.blocks.len(), 2);
    assert!(after.touching_edges(core).is_empty());
}

#[test]
fn add_edge_round_trip() {
    let stores = with_refs();
    let new_edge_id = uuid("eeeeeeee-0000-4000-a000-000000000001");
    let started = uuid(STARTED);
    let advanced = uuid(ADVANCED);
    assert_eq!(stores.touching_edges(started).len(), 1);
    let result = add_edge::execute(&stores, new_edge_id, started, advanced).unwrap();
    assert_eq!(result.event.edge_id, new_edge_id);
    let after = apply_writes_to_vault(&stores, &result.writes);
    assert!(after.edge_with_id(new_edge_id).is_some());
    assert_eq!(after.touching_edges(started).len(), 2);
    let (out, inc) = edges_for(&after, started);
    assert_eq!((out.len(), inc.len()), (1, 1));
}

#[test]
fn add_edge_rejects_dangling_target() {
    let stores = with_refs();
    let new_edge_id = uuid("eeeeeeee-0000-4000-a000-000000000002");
    let nonexistent = uuid("ffffffff-0000-4000-a000-ffffffffffff");
    let result = add_edge::execute(&stores, new_edge_id, uuid(STARTED), nonexistent);
    assert!(matches!(result, Err(DomainError::TargetNotInHeap(_))));
}

#[test]
fn renaming_a_self_referencing_block_keeps_the_old_name_in_the_heap() {
    let mut stores = with_refs();
    let core = uuid(CORE);
    stores.blocks[0].content = "See [[Core Concepts]].".to_string();
    let result = rename_block::execute(&stores, now(), core, "Basics").unwrap();
    let after = apply_writes_to_vault(&stores, &result.writes);
    assert_eq!(after.get_block(core).unwrap().name, "Core Concepts");
    assert_eq!(after.get_block(core).unwrap().content, "See [[Basics]].");
    assert_eq!(resolve_name(&after, "Basics"), Some(core));
}

#[test]
fn detects_missing_footer_annotation_and_edge() {
    let mut stores = with_refs();
    stores.blocks[1].content = "See [[Advanced Topics]].".to_string();
    let violations = validate_vault(&stores);
    assert!(violations.iter().any(|v| matches!(&v.details, ViolationDetails::MissingFooterAnnotation { referenced_name, .. } if referenced_name == "Advanced Topics")));
    stores.blocks[1].content = format!("See [[Advanced Topics]].\n\n<!-- refs -->\n[Advanced Topics]: uuid:{ADVANCED}\n");
    let violations = validate_vault(&stores);
    assert!(violations.iter().any(|v| matches!(&v.details, ViolationDetails::MissingEdgeForRef { .. })));
    assert!(violations[0].description.contains("no corresponding edge"));
}

#[test]
fn detects_dangling_footer_annotation() {
    let mut stores = with_refs();
    stores.names.retain(|(n, _)| n != "Advanced Topics");
    let violations = validate_vault(&stores);
    assert!(violations.iter().any(|v| matches!(&v.details, ViolationDetails::DanglingFooterAnnotation { name, .. } if name == "Advanced Topics")));
}

#[test]
fn detects_document_cycle() {
    let mut stores = with_refs();
    stores.documents[0].sections.push(Section { block: uuid(STARTED), subsections: vec![] });
    let violations = validate_vault(&stores);
    assert_eq!(violations.len(), 1);
    assert!(matches!(&violations[0].details, ViolationDetails::DocumentCycle { block_id, .. } if *block_id == uuid(STARTED)));
}

#[test]
fn detects_dangling_document_block() {
    let mut stores = with_refs();
    stores.documents[0].sections.push(Section { block: 99, subsections: vec![] });
    let violations = validate_vault(&stores);
    assert!(matches!(&violations[0].details, ViolationDetails::DanglingDocumentUuid { dangling_uuid, field, .. } if *dangling_uuid == 99 && field == "section"));
    assert!(violations[0].description.contains("exist"));
}

#[test]
fn unlinking_a_new_link_restores_the_edges() {
    let v = with_refs();
    let id = uuid("eeeeeeee-0000-4000-a000-000000000003");
    let linked = apply_writes_to_vault(&v, &add_edge::execute(&v, id, uuid(STARTED), uuid(ADVANCED)).unwrap().writes);
    let unlinked = apply_writes_to_vault(&linked, &remove_edge::execute(&linked, id).unwrap().writes);
    assert_eq!(unlinked.graph.edges.len(), v.graph.edges.len());
    for e in &v.graph.edges {
        let back = unlinked.edge_with_id(e.id).unwrap();
        assert_eq!((back.source, back.target), (e.source, e.target));
    }
    assert!(unlinked.edge_with_id(id).is_none());
}

#[test]
fn deleting_a_new_document_restores_the_documents() {
    let v = with_refs();
    let id = uuid("dddddddd-0000-4000-a000-000000000001");
    let added = apply_writes_to_vault(&v, &add_document::execute(&v, id, uuid(ADVANCED)).unwrap().writes);
    assert!(added.get_document(id).is_some());
    let removed = apply_writes_to_vault(&added, &delete_document::execute(&added, id).unwrap().writes);
    assert!(removed.get_document(id).is_none());
    assert_eq!(removed.documents.len(), v.documents.len());
}

#[test]
fn document_commands_leave_the_graph_alone() {
    let v = with_refs();
    let doc = uuid("40000000-0000-4000-a000-000000000001");
    let appended = apply_writes_to_vault(&v, &append_section::execute(&v, doc, uuid(ADVANCED)).unwrap().writes);
    let reordered = apply_writes_to_vault(
        &appended,
        &reorder_sections::execute(&appended, doc, vec![uuid(ADVANCED), uuid(STARTED)]).unwrap().writes,
    );
    for after in [&appended, &reordered] {
        assert_eq!(after.graph.edges.len(), v.graph.edges.len());
        assert_eq!(after.blocks.len(), v.blocks.len());
        assert_eq!(after.names.len(), v.names.len());
        for (a, b) in after.graph.edges.iter().zip(v.graph.edges.iter()) {
            assert_eq!((a.id, a.source, a.target), (b.id, b.source, b.target));
        }
    }
    let d = reordered.get_document(doc).unwrap();
    assert_eq!(d.sections[0].block, uuid(ADVANCED));
}

#[test]
fn cascade_delete_leaves_no_trace_of_the_block() {
    let v = with_refs();
    let started = uuid(STARTED);
    let after = apply_writes_to_vault(&v, &delete_block_cascade::execute(&v, now(), started).unwrap().writes);
    assert!(after.get_block(started).is_none());
    assert!(after.touching_edges(started).is_empty());
    assert!(resolve_name(&after, "Getting Started").is_none());
    let d = after.get_document(uuid("40000000-0000-4000-a000-000000000001")).unwrap();
    assert!(d.sections.iter().all(|s| s.block != started));
    let core = after.get_block(uuid(CORE)).unwrap();
    assert!(!core.content.contains("[[Getting Started]]"));
}

#[test]
fn linking_keeps_a_valid_vault_valid() {
    let v = with_refs();
    assert!(validate_vault(&v).is_empty());
    let id = uuid("eeeeeeee-0000-4000-a000-000000000004");
    let after = apply_writes_to_vault(&v, &add_edge::execute(&v, id, uuid(ADVANCED), uuid(STARTED)).unwrap().writes);
    assert!(validate_vault(&after).is_empty());
}

#[test]
fn rename_leaves_no_reference_to_the_old_name() {
    let v = with_refs();
    let result = rename_block::execute(&v, now(), uuid(STARTED), "First Steps").unwrap();
    let after = apply_writes_to_vault(&v, &result.writes);
    for b in &after.blocks {
        if b.id != uuid(STARTED) {
            assert!(!b.content.contains("[[Getting Started]]"), "{}", b.content);
        }
    }
    let core = after.get_block(uuid(CORE)).unwrap();
    assert!(core.content.contains("[[First Steps]]"));
    assert!(core.content.contains(&format!("[First Steps]: uuid:{STARTED}")));
}
