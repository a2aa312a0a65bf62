use portablenote::blocks::{apply_content, apply_rename, create, propagate_rename, revert_refs};
use portablenote::error::DomainError;
use portablenote::time::Timestamp;
use portablenote::types::Block;
use uuid::Uuid;

const ID: &str = "00000000-0000-4000-a000-000000000001";

fn id() -> u128 {
    Uuid::parse_str(ID).unwrap().as_u128()
}

fn now() -> Timestamp {
    Timestamp::now()
}

#[test]
fn create_happy_path() {
    let block = create(id(), "Alpha", "Some content.", now()).unwrap();
    assert_eq!(block.id, id());
    assert_eq!(block.name, "Alpha");
    assert_eq!(block.content, "Some content.");
    assert_eq!(block.created, block.modified);
}

#[test]
fn create_empty_name_is_error() {
    assert!(matches!(create(id(), "", "content", now()), Err(DomainError::EmptyName)));
}

#[test]
fn create_name_with_bracket_is_error() {
    assert!(matches!(
        create(id(), "Block]Name", "content", now()),
        Err(DomainError::NameContainsReservedCharacters)
    ));
    assert!(matches!(
        create(id(), "Block[Name", "content", now()),
        Err(DomainError::NameContainsReservedCharacters)
    ));
}

#[test]
fn create_name_with_percent_is_error() {
    assert!(matches!(
        create(id(), "100%", "content", now()),
        Err(DomainError::NameContainsPercent)
    ));
    assert!(matches!(
        create(id(), "Half % complete", "content", now()),
        Err(DomainError::NameContainsPercent)
    ));
}

#[test]
fn create_heading_in_content_is_error() {
    assert!(matches!(
        create(id(), "Alpha", "## Heading", now()),
        Err(DomainError::HeadingInContent)
    ));
}

#[test]
fn create_heading_inside_fence_is_ok() {
    assert!(create(id(), "Alpha", "```\n## Not a heading\n```", now()).is_ok());
}

#[test]
fn apply_rename_updates_name_and_modified() {
    let block = create(id(), "Alpha", "content", now()).unwrap();
    let renamed = apply_rename(block, "Beta", now()).unwrap();
    assert_eq!(renamed.name, "Beta");
}

#[test]
fn apply_rename_empty_name_is_error() {
    let block = create(id(), "Alpha", "content", now()).unwrap();
    assert!(matches!(apply_rename(block, "", now()), Err(DomainError::EmptyName)));
}

#[test]
fn apply_rename_reserved_characters_is_error() {
    let block = create(id(), "Alpha", "content", now()).unwrap();
    assert!(matches!(
        apply_rename(block.clone(), "New[Name", now()),
        Err(DomainError::NameContainsReservedCharacters)
    ));
    assert!(matches!(
        apply_rename(block, "New]Name", now()),
        Err(DomainError::NameContainsReservedCharacters)
    ));
}

#[test]
fn apply_rename_percent_is_error() {
    let block = create(id(), "Alpha", "content", now()).unwrap();
    assert!(matches!(
        apply_rename(block, "Done 100%", now()),
        Err(DomainError::NameContainsPercent)
    ));
}

#[test]
fn apply_content_updates_content() {
    let block = create(id(), "Alpha", "old", now()).unwrap();
    let updated = apply_content(block, "new content", now()).unwrap();
    assert_eq!(updated.content, "new content");
}

#[test]
fn apply_content_heading_is_error() {
    let block = create(id(), "Alpha", "content", now()).unwrap();
    assert!(matches!(
        apply_content(block, "# Heading", now()),
        Err(DomainError::HeadingInContent)
    ));
}

fn block(n: u128, name: &str, content: &str) -> Block {
    let t = Timestamp::parse("2026-03-01T00:00:00Z").unwrap();
    Block { id: n, name: name.to_string(), content: content.to_string(), created: t, modified: t }
}

#[test]
fn apply_rename_sets_modified() {
    let block = block(1, "Alpha", "content");
    let later = Timestamp::parse("2026-04-01T00:00:00Z").unwrap();
    let renamed = apply_rename(block, "Beta", later).unwrap();
    assert_eq!(renamed.modified, later);
    assert_eq!(renamed.created, Timestamp::parse("2026-03-01T00:00:00Z").unwrap());
}

#[test]
fn propagate_rename_rewrites_refs_and_counts() {
    let later = Timestamp::parse("2026-04-01T00:00:00Z").unwrap();
    let refs = vec![
        block(2, "B", "See [[Alpha]] and [[Alpha]]."),
        block(3, "C", "Nothing here."),
    ];
    let (out, n) = propagate_rename(refs, "Alpha", "Beta", later);
    assert_eq!(n, 2);
    assert_eq!(out[0].content, "See [[Beta]] and [[Beta]].");
    assert_eq!(out[0].modified, later);
    assert_eq!(out[1].content, "Nothing here.");
    assert_ne!(out[1].modified, later);
}

#[test]
fn revert_refs_turns_refs_into_text() {
    let later = Timestamp::parse("2026-04-01T00:00:00Z").unwrap();
    let target = 7u128;
    let refs = vec![block(
        2,
        "B",
        "See [[Alpha]].\n\n<!-- refs -->\n[Alpha]: uuid:00000000-0000-0000-0000-000000000007\n",
    )];
    let (out, n) = revert_refs(refs, "Alpha", target, later);
    assert_eq!(n, 1);
    assert!(!out[0].content.contains("[[Alpha]]"));
    assert!(out[0].content.contains("Alpha"));
    assert_eq!(out[0].modified, later);
}
