use portablenote::documents::{
    append_section, append_subsection, create, project, remove_block_from_document,
    remove_section, reorder_sections, RemoveBlockResult,
};
use portablenote::time::Timestamp;
use portablenote::types::{Block, Section, Subsection};
use uuid::Uuid;

const ROOT: &str = "00000000-0000-4000-a000-000000000001";
const S1: &str = "00000000-0000-4000-a000-000000000002";
const S2: &str = "00000000-0000-4000-a000-000000000003";
const SUB: &str = "00000000-0000-4000-a000-000000000004";
const DOC: &str = "00000000-0000-4000-a000-0000000000d1";

fn u(s: &str) -> u128 {
    Uuid::parse_str(s).unwrap().as_u128()
}

fn ids() -> (u128, u128, u128, u128, u128) {
    (u(ROOT), u(S1), u(S2), u(SUB), u(DOC))
}

fn make_block(id: u128, name: &str) -> Block {
    Block {
        id,
        name: name.to_string(),
        content: String::new(),
        created: Timestamp::now(),
        modified: Timestamp::now(),
    }
}

#[test]
fn create_starts_empty() {
    let (root, _, _, _, doc_id) = ids();
    let doc = create(doc_id, root);
    assert_eq!(doc.id, doc_id);
    assert_eq!(doc.root, root);
    assert!(doc.sections.is_empty());
}

#[test]
fn project_root_only() {
    let (root, _, _, _, doc_id) = ids();
    let doc = create(doc_id, root);
    let blocks = vec![make_block(root, "Root")];
    let projection = project(&doc, &blocks);
    assert_eq!(projection.len(), 1);
    assert_eq!(projection[0].0, 1);
    assert_eq!(projection[0].1.id, root);
}

#[test]
fn project_with_section_and_subsection() {
    let (root, s1, _, sub, doc_id) = ids();
    let mut doc = create(doc_id, root);
    doc.sections.push(Section { block: s1, subsections: vec![Subsection { block: sub }] });
    let blocks = vec![make_block(root, "Root"), make_block(s1, "Section1"), make_block(sub, "Sub")];
    let projection = project(&doc, &blocks);
    assert_eq!(projection.len(), 3);
    assert_eq!(projection[0].0, 1);
    assert_eq!(projection[1].0, 2);
    assert_eq!(projection[2].0, 3);
}

#[test]
fn project_skips_missing_blocks() {
    let (root, s1, _, _, doc_id) = ids();
    let mut doc = create(doc_id, root);
    doc.sections.push(Section { block: s1, subsections: vec![] });
    let blocks = vec![make_block(root, "Root")];
    let projection = project(&doc, &blocks);
    assert_eq!(projection.len(), 1);
}

#[test]
fn append_section_adds_entry() {
    let (root, s1, _, _, doc_id) = ids();
    let doc = create(doc_id, root);
    let doc = append_section(doc, s1);
    assert_eq!(doc.sections.len(), 1);
    assert_eq!(doc.sections[0].block, s1);
}

#[test]
fn append_subsection_adds_under_section() {
    let (root, s1, _, sub, doc_id) = ids();
    let doc = append_section(create(doc_id, root), s1);
    let doc = append_subsection(doc, s1, sub).unwrap();
    assert_eq!(doc.sections[0].subsections[0].block, sub);
}

#[test]
fn append_subsection_missing_section_returns_none() {
    let (root, s1, _, sub, doc_id) = ids();
    let doc = create(doc_id, root);
    assert!(append_subsection(doc, s1, sub).is_none());
}

#[test]
fn remove_section_removes_it() {
    let (root, s1, _, _, doc_id) = ids();
    let doc = append_section(create(doc_id, root), s1);
    let doc = remove_section(doc, s1).unwrap();
    assert!(doc.sections.is_empty());
}

#[test]
fn remove_section_missing_returns_none() {
    let (root, s1, _, _, doc_id) = ids();
    let doc = create(doc_id, root);
    assert!(remove_section(doc, s1).is_none());
}

#[test]
fn reorder_sections_valid() {
    let (root, s1, s2, _, doc_id) = ids();
    let doc = append_section(append_section(create(doc_id, root), s1), s2);
    let doc = reorder_sections(doc, vec![s2, s1]).unwrap();
    assert_eq!(doc.sections[0].block, s2);
    assert_eq!(doc.sections[1].block, s1);
}

#[test]
fn reorder_sections_wrong_set_returns_none() {
    let (root, s1, s2, sub, doc_id) = ids();
    let doc = append_section(append_section(create(doc_id, root), s1), s2);
    assert!(reorder_sections(doc, vec![s1, sub]).is_none());
}

#[test]
fn reorder_to_current_order_changes_nothing() {
    let (root, s1, s2, sub, doc_id) = ids();
    let doc = append_section(append_section(create(doc_id, root), s1), s2);
    let doc = append_subsection(doc, s2, sub).unwrap();
    let doc = reorder_sections(doc, vec![s1, s2]).unwrap();
    assert_eq!(doc.sections[0].block, s1);
    assert_eq!(doc.sections[1].block, s2);
    assert_eq!(doc.sections[1].subsections[0].block, sub);
}

#[test]
fn reorder_with_wrong_length_returns_none() {
    let (root, s1, s2, _, doc_id) = ids();
    let doc = append_section(append_section(create(doc_id, root), s1), s2);
    assert!(reorder_sections(doc, vec![s1, s2, s1]).is_none());
}

#[test]
fn remove_appended_section_gives_document_back() {
    let (root, s1, s2, _, doc_id) = ids();
    let doc = append_section(create(doc_id, root), s1);
    let doc = remove_section(append_section(doc, s2), s2).unwrap();
    assert_eq!(doc.sections.len(), 1);
    assert_eq!(doc.sections[0].block, s1);
}

#[test]
fn remove_block_root_deletes_document() {
    let (root, s1, _, _, doc_id) = ids();
    let doc = append_section(create(doc_id, root), s1);
    assert!(matches!(remove_block_from_document(doc, root), Some(RemoveBlockResult::DeleteDocument)));
}

#[test]
fn remove_block_drops_sections_and_subsections() {
    let (root, s1, s2, sub, doc_id) = ids();
    let doc = append_section(append_section(create(doc_id, root), s1), s2);
    let doc = append_subsection(doc, s1, sub).unwrap();
    match remove_block_from_document(doc, sub) {
        Some(RemoveBlockResult::Updated(d)) => {
            assert_eq!(d.sections.len(), 2);
            assert!(d.sections[0].subsections.is_empty());
        }
        _ => panic!("expected an updated document"),
    }
}

#[test]
fn remove_block_not_mentioned_is_none() {
    let (root, s1, s2, _, doc_id) = ids();
    let doc = append_section(create(doc_id, root), s1);
    assert!(remove_block_from_document(doc, s2).is_none());
}
