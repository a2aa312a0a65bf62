use portablenote::block_file::{
    content_references_block, extract_block_refs, links_revertible, rename_refs_in_content,
    revert_refs_in_content, scan_block_refs,
};
use uuid::Uuid;

const UUID1: &str = "00000000-0000-4000-a000-000000000001";
const UUID2: &str = "00000000-0000-4000-a000-000000000002";

fn u(s: &str) -> u128 {
    Uuid::parse_str(s).unwrap().as_u128()
}

#[test]
fn extract_finds_inline_block_refs() {
    let content = format!("See [Getting Started](block:{UUID1}) and [Advanced](block:{UUID2}).");
    let refs = extract_block_refs(&content);
    assert_eq!(refs.len(), 2);
    assert_eq!(refs[0].0, "Getting Started");
    assert_eq!(refs[0].1, u(UUID1));
    assert_eq!(refs[1].0, "Advanced");
    assert_eq!(refs[1].1, u(UUID2));
}

#[test]
fn extract_multiple_refs_to_same_block() {
    let content = format!("See [Alpha](block:{UUID1}) here and [Alpha](block:{UUID1}) again.");
    let refs = extract_block_refs(&content);
    assert_eq!(refs.len(), 2);
    assert_eq!(refs[0].1, u(UUID1));
    assert_eq!(refs[1].1, u(UUID1));
}

#[test]
fn extract_empty() {
    assert!(extract_block_refs("No links here.").is_empty());
}

#[test]
fn rename_updates_all_occurrences() {
    let id = u(UUID1);
    let content = format!("See [Alpha](block:{UUID1}) and [Alpha](block:{UUID1}).");
    let (out, count) = rename_refs_in_content(&content, id, "Beta");
    assert_eq!(count, 2);
    assert!(out.contains("[Beta](block:"));
    assert!(!out.contains("[Alpha](block:"));
}

#[test]
fn revert_removes_link_syntax() {
    let id = u(UUID1);
    let content = format!("See [Alpha](block:{UUID1}) here.");
    let (out, count) = revert_refs_in_content(&content, id);
    assert_eq!(count, 1);
    assert_eq!(out, "See Alpha here.");
}

#[test]
fn content_references_block_true() {
    let id = u(UUID1);
    let content = format!("Link [x](block:{UUID1})");
    assert!(content_references_block(&content, id));
}

#[test]
fn content_references_block_false() {
    let id = u(UUID1);
    assert!(!content_references_block("No link.", id));
}

#[test]
fn scan_skips_text_that_is_not_a_uuid() {
    let content = format!("[bad](block:not-a-uuid) then [ok](block:{UUID2})");
    let refs = scan_block_refs(&content).unwrap();
    assert_eq!(refs.len(), 1);
    assert_eq!(refs[0].0, "ok");
    assert_eq!(refs[0].1, u(UUID2));
}

#[test]
fn scan_refuses_bracket_right_before_link() {
    let content = format!("[(block:{UUID1})");
    assert!(scan_block_refs(&content).is_none());
}

#[test]
fn rename_exact_text() {
    let content = format!("A [Old](block:{UUID1}) B");
    let (out, count) = rename_refs_in_content(&content, u(UUID1), "New");
    assert_eq!(count, 1);
    assert_eq!(out, format!("A [New](block:{UUID1}) B"));
}

#[test]
fn rename_leaves_other_targets() {
    let content = format!("[Old](block:{UUID2})");
    let (out, count) = rename_refs_in_content(&content, u(UUID1), "New");
    assert_eq!(count, 0);
    assert_eq!(out, content);
}

#[test]
fn revert_without_opening_bracket_is_refused() {
    let content = format!("](block:{UUID1})");
    assert!(!links_revertible(&content, u(UUID1)));
    let ok = format!("[x](block:{UUID1})");
    assert!(links_revertible(&ok, u(UUID1)));
}
