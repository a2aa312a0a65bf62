use portablenote::edges::create;
use uuid::Uuid;

#[test]
fn create_sets_fields() {
    let id = Uuid::parse_str("00000000-0000-4000-a000-0000000000e1").unwrap().as_u128();
    let src = Uuid::parse_str("00000000-0000-4000-a000-000000000001").unwrap().as_u128();
    let tgt = Uuid::parse_str("00000000-0000-4000-a000-000000000002").unwrap().as_u128();
    let edge = create(id, src, tgt);
    assert_eq!(edge.id, id);
    assert_eq!(edge.source, src);
    assert_eq!(edge.target, tgt);
}
