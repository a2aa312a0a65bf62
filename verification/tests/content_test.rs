use portablenote::content::{
    extract_footer_annotations, extract_inline_refs, find_heading_outside_fence,
    rename_reference, revert_reference,
};
use uuid::Uuid;

#[test]
fn heading_detected_outside_fence() {
    let content = "Some text.\n\n## Bad Heading\n\nMore text.";
    assert_eq!(
        find_heading_outside_fence(content),
        Some((2, "Bad Heading".to_string()))
    );
}

#[test]
fn heading_inside_fence_ignored() {
    let content = "Text.\n\n```\n## Not a heading\n```\n\nMore text.";
    assert!(find_heading_outside_fence(content).is_none());
}

#[test]
fn no_heading_returns_none() {
    assert!(find_heading_outside_fence("Plain text.").is_none());
}

#[test]
fn setext_h1_with_equals() {
    let content = "Some text.\n\nBad Heading\n===\n\nMore text.";
    assert_eq!(
        find_heading_outside_fence(content),
        Some((1, "Bad Heading".to_string()))
    );
}

#[test]
fn setext_h2_with_dashes() {
    let content = "Some text.\n\nBad Heading\n---\n\nMore text.";
    assert_eq!(
        find_heading_outside_fence(content),
        Some((2, "Bad Heading".to_string()))
    );
}

#[test]
fn setext_single_dash_is_heading() {
    let content = "Heading\n-";
    assert_eq!(
        find_heading_outside_fence(content),
        Some((2, "Heading".to_string()))
    );
}

#[test]
fn setext_single_equals_is_heading() {
    let content = "Heading\n=";
    assert_eq!(
        find_heading_outside_fence(content),
        Some((1, "Heading".to_string()))
    );
}

#[test]
fn setext_inside_fence_ignored() {
    let content = "Text.\n\n```\nNot a heading\n===\n```\n\nMore text.";
    assert!(find_heading_outside_fence(content).is_none());
}

#[test]
fn dashes_after_blank_line_not_heading() {
    let content = "Some text.\n\n---\n\nMore text.";
    assert!(find_heading_outside_fence(content).is_none());
}

#[test]
fn equals_after_blank_line_not_heading() {
    let content = "Some text.\n\n===\n\nMore text.";
    assert!(find_heading_outside_fence(content).is_none());
}

#[test]
fn mixed_underline_not_setext() {
    let content = "Not a heading\n=-=\n";
    assert!(find_heading_outside_fence(content).is_none());
}

#[test]
fn atx_heading_with_3_spaces_is_heading() {
    let content = "   ## Indented Heading";
    assert_eq!(
        find_heading_outside_fence(content),
        Some((2, "Indented Heading".to_string()))
    );
}

#[test]
fn atx_heading_with_4_spaces_is_code() {
    let content = "    ## Not a heading";
    assert!(find_heading_outside_fence(content).is_none());
}

#[test]
fn setext_underline_with_4_spaces_is_code() {
    let content = "Paragraph\n    ===";
    assert!(find_heading_outside_fence(content).is_none());
}

#[test]
fn fence_with_4_spaces_does_not_open() {
    let content = "    ```\n## Real Heading\n    ```";
    assert_eq!(
        find_heading_outside_fence(content),
        Some((2, "Real Heading".to_string()))
    );
}

#[test]
fn extract_refs_finds_both() {
    let refs = extract_inline_refs("See [[Getting Started]] and [[Advanced Topics]].");
    assert_eq!(refs, vec!["Getting Started", "Advanced Topics"]);
}

#[test]
fn extract_refs_empty() {
    assert!(extract_inline_refs("No refs here.").is_empty());
}

#[test]
fn extract_annotations_finds_entries() {
    let content = "Body.\n\n<!-- refs -->\n[Alpha]: uuid:00000000-0000-4000-a000-000000000001\n[Beta]: uuid:00000000-0000-4000-a000-000000000002\n";
    let map = extract_footer_annotations(content);
    assert_eq!(map.len(), 2);
    assert!(map.iter().any(|(n, _)| n == "Alpha"));
    assert!(map.iter().any(|(n, _)| n == "Beta"));
}

#[test]
fn extract_annotations_no_marker_empty() {
    assert!(extract_footer_annotations("No marker here.").is_empty());
}

#[test]
fn rename_updates_inline_ref() {
    let id = Uuid::parse_str("00000000-0000-4000-a000-000000000002").unwrap();
    let content = format!("See [[Beta]] here.\n\n<!-- refs -->\n[Beta]: uuid:{id}\n");
    let (result, count) = rename_reference(&content, "Beta", "Gamma");
    assert_eq!(count, 1);
    assert!(result.contains("[[Gamma]]"));
    assert!(!result.contains("[[Beta]]"));
    assert!(result.contains(&format!("[Gamma]: uuid:{id}")));
    assert!(!result.contains(&format!("[Beta]: uuid:{id}")));
}

#[test]
fn rename_no_match_is_noop() {
    let content = "No refs here.";
    let (result, count) = rename_reference(content, "Beta", "Gamma");
    assert_eq!(count, 0);
    assert_eq!(result, content);
}

#[test]
fn rename_multiple_occurrences() {
    let content = "[[Beta]] and also [[Beta]].";
    let (result, count) = rename_reference(content, "Beta", "Gamma");
    assert_eq!(count, 2);
    assert_eq!(result, "[[Gamma]] and also [[Gamma]].");
}

#[test]
fn revert_removes_link_brackets_and_footer() {
    let id = Uuid::parse_str("00000000-0000-4000-a000-000000000002").unwrap();
    let content = format!("See [[Beta]] here.\n\n<!-- refs -->\n[Beta]: uuid:{id}\n");
    let (result, count) = revert_reference(&content, "Beta", id.as_u128());
    assert_eq!(count, 1);
    assert!(result.contains("See Beta here."));
    assert!(!result.contains("[[Beta]]"));
    assert!(!result.contains(&format!("[Beta]: uuid:{id}")));
}

#[test]
fn revert_preserves_trailing_newline() {
    let id = Uuid::parse_str("00000000-0000-4000-a000-000000000002").unwrap();
    let content = format!("Text.\n\n<!-- refs -->\n[Beta]: uuid:{id}\n");
    let (result, _) = revert_reference(&content, "Beta", id.as_u128());
    assert!(result.ends_with('\n'));
}

#[test]
fn revert_no_match_is_noop() {
    let id = Uuid::parse_str("00000000-0000-4000-a000-000000000002").unwrap();
    let content = "No refs here.";
    let (result, count) = revert_reference(content, "Beta", id.as_u128());
    assert_eq!(count, 0);
    assert_eq!(result, content);
}

// The validation helpers read references and headings with the same functions.

#[test]
fn extract_inline_refs_basic() {
    let content = "See [[Getting Started]] and [[Advanced Topics]].";
    let refs = extract_inline_refs(content);
    assert_eq!(refs, vec!["Getting Started", "Advanced Topics"]);
}

#[test]
fn extract_inline_refs_empty() {
    let refs = extract_inline_refs("No refs here.");
    assert!(refs.is_empty());
}

#[test]
fn extract_footer_annotations_basic() {
    let content = "Some text.\n\n<!-- refs -->\n[Getting Started]: uuid:20000000-0000-4000-a000-000000000002\n[Advanced Topics]: uuid:20000000-0000-4000-a000-000000000003\n";
    let map = extract_footer_annotations(content);
    assert_eq!(map.len(), 2);
    assert!(map.iter().any(|(n, _)| n == "Getting Started"));
    assert!(map.iter().any(|(n, _)| n == "Advanced Topics"));
}

#[test]
fn find_heading_outside_fence_detects() {
    let content = "Some text.\n\n## Bad Heading\n\nMore text.";
    let result = find_heading_outside_fence(content);
    assert_eq!(result, Some((2, "Bad Heading".to_string())));
}

#[test]
fn find_heading_inside_fence_ignored() {
    let content = "Text.\n\n```\n## Not a heading\n```\n\nMore text.";
    let result = find_heading_outside_fence(content);
    assert!(result.is_none());
}

#[test]
fn find_heading_none() {
    let content = "Plain text with no headings.";
    let result = find_heading_outside_fence(content);
    assert!(result.is_none());
}
