use mysqldump_quick_xml::bytes::{bytes_eq, is_field_tag, is_name_key, is_row_tag};
use mysqldump_quick_xml::event::resolve_field;
use mysqldump_quick_xml::{Schema, TagAttribute, Target};

fn schema(names: &[&str]) -> Schema {
    Schema::new(names.iter().map(|n| n.as_bytes().to_vec()).collect())
}

fn pair(key: &str, value: &str) -> TagAttribute {
    TagAttribute::Pair { key: key.as_bytes().to_vec(), value: value.as_bytes().to_vec() }
}

#[test]
fn byte_strings_compare_by_content() {
    assert!(bytes_eq(b"", b""));
    assert!(bytes_eq(b"field", b"field"));
    assert!(!bytes_eq(b"field", b"fiele"));
    assert!(!bytes_eq(b"field", b"fields"));
    assert!(!bytes_eq(b"field", b""));
}

#[test]
fn the_three_names_of_the_format() {
    assert!(is_field_tag(b"field"));
    assert!(!is_field_tag(b"Field"));
    assert!(!is_field_tag(b"row"));
    assert!(is_row_tag(b"row"));
    assert!(!is_row_tag(b"rows"));
    assert!(is_name_key(b"name"));
    assert!(!is_name_key(b"nam"));
}

#[test]
fn schema_keeps_names_in_order() {
    let schema = schema(&["id", "name", "id"]);
    assert_eq!(schema.len(), 3);
    assert_eq!(schema.name(0), Some(&b"id".to_vec()));
    assert_eq!(schema.name(1), Some(&b"name".to_vec()));
    assert_eq!(schema.name(2), Some(&b"id".to_vec()));
    assert_eq!(schema.name(3), None);
}

#[test]
fn slot_is_the_first_index_of_the_name() {
    let schema = schema(&["id", "name", "id", ""]);
    assert_eq!(schema.slot_of(b"id"), Some(0));
    assert_eq!(schema.slot_of(b"name"), Some(1));
    assert_eq!(schema.slot_of(b""), Some(3));
    assert_eq!(schema.slot_of(b"Name"), None);
    assert_eq!(schema.slot_of(b"nam"), None);
}

#[test]
fn empty_schema_knows_no_name() {
    let schema = schema(&[]);
    assert_eq!(schema.len(), 0);
    assert_eq!(schema.slot_of(b"id"), None);
}

#[test]
fn field_resolves_by_its_first_name_attribute() {
    let schema = schema(&["id", "name"]);
    assert_eq!(resolve_field(&schema, &vec![pair("name", "name")]), Target::Slot(1));
    assert_eq!(resolve_field(&schema, &vec![pair("x", "id"), pair("name", "id")]), Target::Slot(0));
    assert_eq!(
        resolve_field(&schema, &vec![pair("name", "zz"), pair("name", "id")]),
        Target::Unknown
    );
    assert_eq!(resolve_field(&schema, &vec![]), Target::Unknown);
    assert_eq!(resolve_field(&schema, &vec![pair("id", "name")]), Target::Unknown);
}

#[test]
fn field_is_broken_by_an_unreadable_attribute_before_its_name() {
    let schema = schema(&["id"]);
    assert_eq!(resolve_field(&schema, &vec![TagAttribute::Malformed]), Target::Broken);
    assert_eq!(
        resolve_field(&schema, &vec![pair("x", "1"), TagAttribute::Malformed, pair("name", "id")]),
        Target::Broken
    );
    assert_eq!(
        resolve_field(&schema, &vec![pair("name", "id"), TagAttribute::Malformed]),
        Target::Slot(0)
    );
}
