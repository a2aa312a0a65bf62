use portablenote::error::DomainError;
use portablenote::results::VaultWrite;
use portablenote::time::Timestamp;
use portablenote::types::{Block, BlockGraph, Document, Edge, Manifest, Section, Subsection, Vault};
use portablenote::use_cases::{
    add_block, add_document, add_edge, append_section, append_subsection, delete_block_cascade,
    delete_block_safe, delete_document, init_vault, mutate_block_content, remove_edge,
    remove_section, rename_block, reorder_sections,
};
use uuid::Uuid;

const ID: &str = "00000000-0000-4000-a000-000000000001";
const OTHER: &str = "00000000-0000-4000-a000-000000000002";
const THIRD: &str = "00000000-0000-4000-a000-000000000003";
const EDGE: &str = "00000000-0000-4000-a000-0000000000e1";
const EDGE_OUT: &str = "00000000-0000-4000-a000-0000000000e2";
const DOC: &str = "00000000-0000-4000-a000-0000000000d1";

fn u(s: &str) -> u128 {
    Uuid::parse_str(s).unwrap().as_u128()
}
fn id() -> u128 {
    u(ID)
}
fn other() -> u128 {
    u(OTHER)
}
fn third() -> u128 {
    u(THIRD)
}
fn edge_id() -> u128 {
    u(EDGE)
}
fn doc_id() -> u128 {
    u(DOC)
}
fn now() -> Timestamp {
    Timestamp::parse("2026-05-01T12:00:00Z").unwrap()
}
fn earlier() -> Timestamp {
    Timestamp::parse("2026-03-01T00:00:00Z").unwrap()
}

fn make_block(id: u128, name: &str) -> Block {
    Block { id, name: name.to_string(), content: String::new(), created: earlier(), modified: earlier() }
}

fn block_with(id: u128, name: &str, content: &str) -> Block {
    Block { id, name: name.to_string(), content: content.to_string(), created: earlier(), modified: earlier() }
}

fn vault(blocks: Vec<Block>, edges: Vec<Edge>, documents: Vec<Document>) -> Vault {
    let mut blocks = blocks;
    blocks.sort_by_key(|b| b.id);
    let mut documents = documents;
    documents.sort_by_key(|d| d.id);
    let names = blocks.iter().map(|b| (b.name.clone(), b.id)).collect();
    Vault {
        manifest: Manifest {
            vault_id: 0,
            spec_version: "0.1.0".to_string(),
            format: "markdown".to_string(),
            checksum: String::new(),
            previous_checksum: None,
        },
        blocks,
        graph: BlockGraph { version: "0.1.0".to_string(), edges },
        documents,
        names,
        version: 0,
    }
}

fn doc_with_sections(sections: Vec<u128>) -> Document {
    Document {
        id: doc_id(),
        root: id(),
        sections: sections.into_iter().map(|b| Section { block: b, subsections: vec![] }).collect(),
    }
}

// ---- add_block ----

#[test]
fn add_block_happy_path_returns_writes_and_event() {
    let v = vault(vec![], vec![], vec![]);
    let result = add_block::execute(&v, now(), id(), "Alpha", "content").unwrap();
    assert_eq!(result.event.block_id, id());
    assert_eq!(result.event.name, "Alpha");
    assert_eq!(result.writes.len(), 2);
    assert!(matches!(&result.writes[0], VaultWrite::WriteBlock(b) if b.id == id() && b.name == "Alpha" && b.content == "content"));
    assert!(matches!(&result.writes[1], VaultWrite::SetName { name, id: wid } if name == "Alpha" && *wid == id()));
}

#[test]
fn add_block_stamps_created_and_modified() {
    let v = vault(vec![], vec![], vec![]);
    let result = add_block::execute(&v, now(), id(), "Alpha", "content").unwrap();
    match &result.writes[0] {
        VaultWrite::WriteBlock(b) => {
            assert_eq!(b.created, now());
            assert_eq!(b.modified, now());
        }
        _ => panic!("expected a block write"),
    }
}

#[test]
fn name_conflict_returns_error() {
    let v = vault(vec![make_block(other(), "Alpha")], vec![], vec![]);
    let result = add_block::execute(&v, now(), id(), "Alpha", "content");
    assert!(matches!(result, Err(DomainError::NameConflict(_, _))));
}

#[test]
fn add_block_name_conflict_case_insensitive_returns_error() {
    let v = vault(vec![make_block(other(), "Welcome")], vec![], vec![]);
    let result = add_block::execute(&v, now(), id(), "welcome", "content");
    match result {
        Err(DomainError::NameConflict(n, existing)) => {
            assert_eq!(n, "welcome");
            assert_eq!(existing, other());
        }
        _ => panic!("expected NameConflict"),
    }
}

#[test]
fn duplicate_id_returns_error() {
    let v = vault(vec![make_block(id(), "Existing")], vec![], vec![]);
    let result = add_block::execute(&v, now(), id(), "Alpha", "content");
    assert!(matches!(result, Err(DomainError::DuplicateId(_))));
}

#[test]
fn nfd_name_is_stored_as_nfc() {
    let v = vault(vec![], vec![], vec![]);
    let nfd_name = "cafe\u{0301}";
    let nfc_name = "caf\u{00e9}";
    let result = add_block::execute(&v, now(), id(), nfd_name, "content").unwrap();
    assert_eq!(result.event.name, nfc_name);
    assert!(matches!(&result.writes[0], VaultWrite::WriteBlock(b) if b.name == nfc_name));
    assert!(matches!(&result.writes[1], VaultWrite::SetName { name, .. } if name == nfc_name));
}

#[test]
fn add_block_heading_in_content_returns_error() {
    let v = vault(vec![], vec![], vec![]);
    let result = add_block::execute(&v, now(), id(), "Alpha", "## Bad");
    assert!(matches!(result, Err(DomainError::HeadingInContent)));
}

#[test]
fn add_block_empty_name_returns_error() {
    let v = vault(vec![], vec![], vec![]);
    let result = add_block::execute(&v, now(), id(), "", "content");
    assert!(matches!(result, Err(DomainError::EmptyName)));
}

// ---- rename_block ----

#[test]
fn rename_block_happy_path_returns_writes_and_event() {
    let v = vault(vec![make_block(id(), "Alpha")], vec![], vec![]);
    let result = rename_block::execute(&v, now(), id(), "Beta").unwrap();
    assert_eq!(result.event.old_name, "Alpha");
    assert_eq!(result.event.new_name, "Beta");
    assert_eq!(result.event.refs_updated, 0);
    assert_eq!(result.writes.len(), 3);
    assert!(matches!(&result.writes[0], VaultWrite::WriteBlock(b) if b.name == "Beta" && b.modified == now()));
    assert!(matches!(&result.writes[1], VaultWrite::RemoveName(n) if n == "Alpha"));
    assert!(matches!(&result.writes[2], VaultWrite::SetName { name, .. } if name == "Beta"));
}

#[test]
fn propagates_refs_in_other_blocks() {
    let referrer = block_with(
        other(),
        "Referrer",
        "See [[Alpha]].\n\n<!-- refs -->\n[Alpha]: uuid:00000000-0000-4000-a000-000000000001\n",
    );
    let v = vault(vec![make_block(id(), "Alpha"), referrer], vec![], vec![]);
    let result = rename_block::execute(&v, now(), id(), "Beta").unwrap();
    assert_eq!(result.writes.len(), 4);
    assert!(matches!(&result.writes[1], VaultWrite::WriteBlock(b) if b.content.contains("[[Beta]]")));
    assert_eq!(result.event.refs_updated, 1);
}

#[test]
fn rename_block_block_not_found_returns_error() {
    let v = vault(vec![], vec![], vec![]);
    let result = rename_block::execute(&v, now(), id(), "Beta");
    assert!(matches!(result, Err(DomainError::BlockNotFound(_))));
}

#[test]
fn name_conflict_with_different_block_returns_error() {
    let v = vault(vec![make_block(id(), "Alpha"), make_block(other(), "Beta")], vec![], vec![]);
    let result = rename_block::execute(&v, now(), id(), "Beta");
    assert!(matches!(result, Err(DomainError::NameConflict(_, _))));
}

#[test]
fn rename_to_own_name_in_other_case_is_allowed() {
    let v = vault(vec![make_block(id(), "Alpha")], vec![], vec![]);
    let result = rename_block::execute(&v, now(), id(), "ALPHA").unwrap();
    assert_eq!(result.event.new_name, "ALPHA");
}

#[test]
fn nfd_new_name_is_stored_as_nfc() {
    let v = vault(vec![make_block(id(), "Alpha")], vec![], vec![]);
    let nfd_name = "cafe\u{0301}";
    let nfc_name = "caf\u{00e9}";
    let result = rename_block::execute(&v, now(), id(), nfd_name).unwrap();
    assert_eq!(result.event.new_name, nfc_name);
    assert!(matches!(&result.writes[0], VaultWrite::WriteBlock(b) if b.name == nfc_name));
    assert!(matches!(result.writes.last().unwrap(), VaultWrite::SetName { name, .. } if name == nfc_name));
}

#[test]
fn rename_block_name_conflict_case_insensitive_returns_error() {
    let v = vault(vec![make_block(id(), "Core Concepts"), make_block(other(), "Welcome")], vec![], vec![]);
    let result = rename_block::execute(&v, now(), id(), "welcome");
    assert!(matches!(result, Err(DomainError::NameConflict(_, _))));
}

// ---- mutate_block_content ----

#[test]
fn happy_path_returns_save_write() {
    let v = vault(vec![make_block(id(), "Alpha")], vec![], vec![]);
    let result = mutate_block_content::execute(&v, now(), id(), "new content").unwrap();
    assert_eq!(result.event.block_id, id());
    assert_eq!(result.writes.len(), 1);
    assert!(matches!(&result.writes[0], VaultWrite::WriteBlock(b) if b.content == "new content" && b.modified == now() && b.created == earlier()));
}

#[test]
fn mutate_block_content_block_not_found_returns_error() {
    let v = vault(vec![], vec![], vec![]);
    let result = mutate_block_content::execute(&v, now(), id(), "x");
    assert!(matches!(result, Err(DomainError::BlockNotFound(_))));
}

#[test]
fn mutate_block_content_heading_in_content_returns_error() {
    let v = vault(vec![make_block(id(), "Alpha")], vec![], vec![]);
    let result = mutate_block_content::execute(&v, now(), id(), "# Heading");
    assert!(matches!(result, Err(DomainError::HeadingInContent)));
}

// ---- delete_block_safe ----

#[test]
fn no_incoming_returns_result() {
    let v = vault(vec![make_block(id(), "Alpha")], vec![], vec![]);
    let result = delete_block_safe::execute(&v, now(), id()).unwrap();
    assert_eq!(result.event.block_id, id());
    assert!(result.writes.iter().any(|w| matches!(w, VaultWrite::DeleteBlock(bid) if *bid == id())));
    assert!(result.writes.iter().any(|w| matches!(w, VaultWrite::RemoveName(n) if n == "Alpha")));
}

#[test]
fn outgoing_edges_included_as_remove_writes() {
    let v = vault(
        vec![make_block(id(), "Alpha"), make_block(other(), "Beta")],
        vec![Edge { id: edge_id(), source: id(), target: other() }],
        vec![],
    );
    let result = delete_block_safe::execute(&v, now(), id()).unwrap();
    assert!(result.writes.iter().any(|w| matches!(w, VaultWrite::RemoveEdge(eid) if *eid == edge_id())));
    assert_eq!(result.event.edges_removed, 1);
}

#[test]
fn incoming_edges_rejected() {
    let v = vault(
        vec![make_block(id(), "Alpha"), make_block(other(), "Beta")],
        vec![Edge { id: edge_id(), source: other(), target: id() }],
        vec![],
    );
    let result = delete_block_safe::execute(&v, now(), id());
    assert!(matches!(result, Err(DomainError::HasIncomingEdges(_, 1))));
}

#[test]
fn delete_block_safe_block_not_found_returns_error() {
    let v = vault(vec![], vec![], vec![]);
    let result = delete_block_safe::execute(&v, now(), id());
    assert!(matches!(result, Err(DomainError::BlockNotFound(_))));
}

#[test]
fn safe_delete_reverts_links_in_other_blocks() {
    let referrer = block_with(other(), "Referrer", &format!("See [Alpha](block:{ID}) here."));
    let v = vault(vec![make_block(id(), "Alpha"), referrer], vec![], vec![]);
    assert!(delete_block_safe::links_revertible_in(&v, id()));
    let result = delete_block_safe::execute(&v, now(), id()).unwrap();
    assert_eq!(result.event.inline_refs_reverted, 1);
    assert!(matches!(&result.writes[0], VaultWrite::WriteBlock(b) if b.content == "See Alpha here." && b.modified == now()));
}

#[test]
fn safe_delete_no_incoming_succeeds() {
    let v = vault(vec![make_block(id(), "Alpha")], vec![], vec![]);
    let result = delete_block_safe::execute(&v, now(), id()).unwrap();
    assert_eq!(result.event.block_id, id());
    assert_eq!(result.event.edges_removed, 0);
}

#[test]
fn safe_delete_with_incoming_is_rejected() {
    let v = vault(
        vec![make_block(id(), "Alpha"), make_block(other(), "Beta")],
        vec![Edge { id: edge_id(), source: other(), target: id() }],
        vec![],
    );
    let result = delete_block_safe::execute(&v, now(), id());
    assert!(matches!(result, Err(DomainError::HasIncomingEdges(_, 1))));
}

#[test]
fn cascade_delete_removes_incoming_edges() {
    let v = vault(
        vec![make_block(id(), "Alpha"), make_block(other(), "Beta")],
        vec![Edge { id: edge_id(), source: other(), target: id() }],
        vec![],
    );
    let result = delete_block_cascade::execute(&v, now(), id()).unwrap();
    assert_eq!(result.event.edges_removed, 1);
}

#[test]
fn delete_block_block_not_found_returns_error() {
    let v = vault(vec![], vec![], vec![]);
    let result = delete_block_safe::execute(&v, now(), id());
    assert!(matches!(result, Err(DomainError::BlockNotFound(_))));
}

// ---- delete_block_cascade ----

#[test]
fn removes_all_edges_including_incoming() {
    let v = vault(
        vec![make_block(id(), "Alpha"), make_block(other(), "Beta")],
        vec![
            Edge { id: edge_id(), source: other(), target: id() },
            Edge { id: u(EDGE_OUT), source: id(), target: other() },
        ],
        vec![],
    );
    let result = delete_block_cascade::execute(&v, now(), id()).unwrap();
    assert!(result.writes.iter().any(|w| matches!(w, VaultWrite::RemoveEdge(e) if *e == edge_id())));
    assert!(result.writes.iter().any(|w| matches!(w, VaultWrite::RemoveEdge(e) if *e == u(EDGE_OUT))));
    assert_eq!(result.event.edges_removed, 2);
}

#[test]
fn no_edges_returns_delete_and_remove_name() {
    let v = vault(vec![make_block(id(), "Alpha")], vec![], vec![]);
    let result = delete_block_cascade::execute(&v, now(), id()).unwrap();
    assert!(result.writes.iter().any(|w| matches!(w, VaultWrite::DeleteBlock(bid) if *bid == id())));
    assert!(result.writes.iter().any(|w| matches!(w, VaultWrite::RemoveName(n) if n == "Alpha")));
}

#[test]
fn reverts_inline_refs_in_other_blocks() {
    let referrer = block_with(
        other(),
        "Referrer",
        &format!("See [[Alpha]] here.\n\n<!-- refs -->\n[Alpha]: uuid:{ID}\n"),
    );
    let v = vault(vec![make_block(id(), "Alpha"), referrer], vec![], vec![]);
    let result = delete_block_cascade::execute(&v, now(), id()).unwrap();
    assert!(result.writes.iter().any(|w| matches!(w, VaultWrite::WriteBlock(b) if b.content.contains("See Alpha here."))));
    assert_eq!(result.event.inline_refs_reverted, 1);
}

#[test]
fn delete_block_cascade_block_not_found_returns_error() {
    let v = vault(vec![], vec![], vec![]);
    let result = delete_block_cascade::execute(&v, now(), id());
    assert!(matches!(result, Err(DomainError::BlockNotFound(_))));
}

#[test]
fn removes_block_from_document_section() {
    let d = u("d0000000-0000-4000-a000-000000000001");
    let doc = Document { id: d, root: other(), sections: vec![Section { block: id(), subsections: vec![] }] };
    let v = vault(vec![make_block(id(), "Alpha"), make_block(other(), "Beta")], vec![], vec![doc]);
    let result = delete_block_cascade::execute(&v, now(), id()).unwrap();
    assert!(result.writes.iter().any(|w| matches!(w, VaultWrite::WriteDocument(x) if x.id == d && x.sections.is_empty())));
}

#[test]
fn cascade_deletes_documents_rooted_at_block() {
    let doc = Document { id: doc_id(), root: id(), sections: vec![] };
    let v = vault(vec![make_block(id(), "Alpha")], vec![], vec![doc]);
    let result = delete_block_cascade::execute(&v, now(), id()).unwrap();
    assert!(matches!(&result.writes[0], VaultWrite::DeleteDocument(x) if *x == doc_id()));
}

// ---- edges ----

#[test]
fn happy_path_returns_save_edge_write() {
    let v = vault(vec![make_block(id(), "A"), make_block(other(), "B")], vec![], vec![]);
    let result = add_edge::execute(&v, edge_id(), id(), other()).unwrap();
    assert_eq!(result.event.edge_id, edge_id());
    assert_eq!(result.event.source, id());
    assert_eq!(result.event.target, other());
    assert_eq!(result.writes.len(), 1);
    assert!(matches!(&result.writes[0], VaultWrite::WriteEdge(e) if e.id == edge_id()));
}

#[test]
fn source_not_in_heap_returns_error() {
    let v = vault(vec![make_block(other(), "B")], vec![], vec![]);
    let result = add_edge::execute(&v, edge_id(), id(), other());
    assert!(matches!(result, Err(DomainError::SourceNotInHeap(_))));
}

#[test]
fn target_not_in_heap_returns_error() {
    let v = vault(vec![make_block(id(), "A")], vec![], vec![]);
    let result = add_edge::execute(&v, edge_id(), id(), other());
    assert!(matches!(result, Err(DomainError::TargetNotInHeap(_))));
}

#[test]
fn duplicate_edge_id_returns_error() {
    let v = vault(
        vec![make_block(id(), "A"), make_block(other(), "B")],
        vec![Edge { id: edge_id(), source: id(), target: other() }],
        vec![],
    );
    let result = add_edge::execute(&v, edge_id(), id(), other());
    assert!(matches!(result, Err(DomainError::DuplicateId(_))));
}

#[test]
fn happy_path_returns_remove_edge_write() {
    let v = vault(
        vec![make_block(id(), "A"), make_block(other(), "B")],
        vec![Edge { id: edge_id(), source: id(), target: other() }],
        vec![],
    );
    let result = remove_edge::execute(&v, edge_id()).unwrap();
    assert_eq!(result.event.edge_id, edge_id());
    assert!(matches!(&result.writes[0], VaultWrite::RemoveEdge(e) if *e == edge_id()));
}

#[test]
fn edge_not_found_returns_error() {
    let v = vault(vec![], vec![], vec![]);
    let result = remove_edge::execute(&v, edge_id());
    assert!(matches!(result, Err(DomainError::EdgeNotFound(_))));
}

// ---- documents ----

#[test]
fn add_document_happy_path_returns_save_document_write() {
    let v = vault(vec![make_block(id(), "Root")], vec![], vec![]);
    let result = add_document::execute(&v, doc_id(), id()).unwrap();
    assert_eq!(result.event.document_id, doc_id());
    assert_eq!(result.event.root_block_id, id());
    assert_eq!(result.writes.len(), 1);
    assert!(matches!(&result.writes[0], VaultWrite::WriteDocument(d) if d.id == doc_id() && d.root == id() && d.sections.is_empty()));
}

#[test]
fn root_not_in_heap_returns_error() {
    let v = vault(vec![], vec![], vec![]);
    let result = add_document::execute(&v, doc_id(), id());
    assert!(matches!(result, Err(DomainError::RootNotInHeap(_))));
}

#[test]
fn duplicate_document_id_returns_error() {
    let v = vault(vec![make_block(id(), "Root")], vec![], vec![doc_with_sections(vec![])]);
    let result = add_document::execute(&v, doc_id(), id());
    assert!(matches!(result, Err(DomainError::DuplicateId(_))));
}

#[test]
fn happy_path_returns_delete_document_write() {
    let v = vault(vec![], vec![], vec![doc_with_sections(vec![])]);
    let result = delete_document::execute(&v, doc_id()).unwrap();
    assert_eq!(result.event.document_id, doc_id());
    assert!(matches!(&result.writes[0], VaultWrite::DeleteDocument(d) if *d == doc_id()));
}

#[test]
fn delete_document_document_not_found_returns_error() {
    let v = vault(vec![], vec![], vec![]);
    let result = delete_document::execute(&v, doc_id());
    assert!(matches!(result, Err(DomainError::DocumentNotFound(_))));
}

#[test]
fn append_section_happy_path_returns_save_document_write() {
    let v = vault(vec![make_block(other(), "S")], vec![], vec![doc_with_sections(vec![])]);
    let result = append_section::execute(&v, doc_id(), other()).unwrap();
    assert_eq!(result.event.depth, 1);
    assert_eq!(result.event.block_id, other());
    assert_eq!(result.writes.len(), 1);
    assert!(matches!(&result.writes[0], VaultWrite::WriteDocument(d) if d.sections.len() == 1 && d.sections[0].block == other()));
}

#[test]
fn append_section_document_not_found_returns_error() {
    let v = vault(vec![make_block(other(), "S")], vec![], vec![]);
    let result = append_section::execute(&v, doc_id(), other());
    assert!(matches!(result, Err(DomainError::DocumentNotFound(_))));
}

#[test]
fn append_section_block_not_found_returns_error() {
    let v = vault(vec![], vec![], vec![doc_with_sections(vec![])]);
    let result = append_section::execute(&v, doc_id(), other());
    assert!(matches!(result, Err(DomainError::BlockNotFound(_))));
}

#[test]
fn append_subsection_happy_path_returns_save_document_write() {
    let v = vault(vec![make_block(third(), "Sub")], vec![], vec![doc_with_sections(vec![other()])]);
    let result = append_subsection::execute(&v, doc_id(), other(), third()).unwrap();
    assert_eq!(result.event.depth, 2);
    assert_eq!(result.event.block_id, third());
    assert_eq!(result.writes.len(), 1);
    assert!(matches!(&result.writes[0], VaultWrite::WriteDocument(d) if d.sections[0].subsections == vec![Subsection { block: third() }]));
}

#[test]
fn append_subsection_section_not_found_returns_error() {
    let missing = u("00000000-0000-4000-a000-ffffffffffff");
    let v = vault(vec![make_block(third(), "Sub")], vec![], vec![doc_with_sections(vec![other()])]);
    let result = append_subsection::execute(&v, doc_id(), missing, third());
    assert!(matches!(result, Err(DomainError::SectionNotFound(_))));
}

#[test]
fn remove_section_happy_path_returns_save_document_write() {
    let v = vault(vec![], vec![], vec![doc_with_sections(vec![other(), third()])]);
    let result = remove_section::execute(&v, doc_id(), other()).unwrap();
    assert_eq!(result.event.block_id, other());
    assert!(matches!(&result.writes[0], VaultWrite::WriteDocument(d) if d.sections.len() == 1 && d.sections[0].block == third()));
}

#[test]
fn remove_section_section_not_found_returns_error() {
    let v = vault(vec![], vec![], vec![doc_with_sections(vec![other()])]);
    let result = remove_section::execute(&v, doc_id(), third());
    assert!(matches!(result, Err(DomainError::SectionNotFound(_))));
}

#[test]
fn remove_section_document_not_found_returns_error() {
    let v = vault(vec![], vec![], vec![]);
    let result = remove_section::execute(&v, doc_id(), other());
    assert!(matches!(result, Err(DomainError::DocumentNotFound(_))));
}

#[test]
fn reorder_sections_happy_path_returns_save_document_write() {
    let v = vault(vec![], vec![], vec![doc_with_sections(vec![other(), third()])]);
    let result = reorder_sections::execute(&v, doc_id(), vec![third(), other()]).unwrap();
    assert_eq!(result.event.document_id, doc_id());
    assert_eq!(result.writes.len(), 1);
    assert!(matches!(&result.writes[0], VaultWrite::WriteDocument(d) if d.sections[0].block == third()));
}

#[test]
fn wrong_section_set_returns_error() {
    let bogus = u("00000000-0000-4000-a000-ffffffffffff");
    let v = vault(vec![], vec![], vec![doc_with_sections(vec![other(), third()])]);
    let result = reorder_sections::execute(&v, doc_id(), vec![other(), bogus]);
    assert!(matches!(result, Err(DomainError::InvalidSectionOrder)));
}

// ---- init_vault ----

#[test]
fn init_vault_returns_genesis_manifest_and_empty_graph() {
    let vid = Uuid::new_v4().as_u128();
    let result = init_vault::execute(Some(vid));
    assert_eq!(result.manifest.vault_id, vid);
    assert_eq!(result.manifest.checksum, init_vault::GENESIS_CHECKSUM);
    assert!(result.manifest.previous_checksum.is_none());
    assert!(result.graph.edges.is_empty());
    assert_eq!(result.event.vault_id, vid);
}

#[test]
fn init_vault_generates_vault_id_when_none_given() {
    let result = init_vault::execute(None);
    assert_ne!(result.manifest.vault_id, 0);
    assert_eq!(result.manifest.vault_id, result.event.vault_id);
}
