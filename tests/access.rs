use serde_env::access::{
    sequence_elements, tuple_elements, EnumAccessor, KeyDeserializer, MapAccessor, SeqAccessor,
    VariantAccessor,
};
use serde_env::{ErrorKind, Node};

fn strings(items: &[&str]) -> Vec<String> {
    items.iter().map(|s| s.to_string()).collect()
}

#[test]
fn key_deserializer_matches_declared_names_ignoring_ascii_case() {
    let names = strings(&["Option1", "Option2"]);
    assert_eq!(KeyDeserializer::new("option2".to_string()).deserialize_enum(&names).unwrap(), "Option2");
    let err = KeyDeserializer::new("option3".to_string()).deserialize_enum(&names).unwrap_err();
    assert_eq!(err.kind(), ErrorKind::MissingVariant);
    assert_eq!(err.detail(), "option3");
    assert_eq!(KeyDeserializer::new("Path".to_string()).deserialize_string(), "Path");
}

#[test]
fn seq_accessor_hands_out_leaf_nodes_in_order() {
    let mut seq = SeqAccessor::new(sequence_elements(&Node::new(" 1, ,2 ")));
    assert_eq!(seq.next_element(), Some(Node::new("1")));
    assert_eq!(seq.next_element(), Some(Node::new("2")));
    assert_eq!(seq.next_element(), None);
    assert_eq!(tuple_elements(&Node::new("a,")), strings(&["a", ""]));
}

#[test]
fn map_accessor_skips_keys_that_are_not_found() {
    let root = Node::from_iter(&vec![("A_B".to_string(), "1".to_string()), ("C".to_string(), "2".to_string())]);
    let mut map = MapAccessor::new(strings(&["x", "a_b", "y", "c"]), root);
    assert_eq!(map.next_entry(), Some(("a_b".to_string(), Node::new("1"))));
    assert_eq!(map.next_entry(), Some(("c".to_string(), Node::new("2"))));
    assert_eq!(map.next_entry(), None);
}

#[test]
fn enum_accessor_selects_the_named_variant() {
    let node = Node::new("y").with_child("bar", Node::new("xxx"));
    let (name, payload) = EnumAccessor::new(strings(&["X", "Y"]), node).variant_seed().unwrap();
    assert_eq!(name, "Y");
    assert_eq!(payload.unit_variant().unwrap_err().kind(), ErrorKind::NotUnitVariant);
    assert_eq!(payload.tuple_variant().kind(), ErrorKind::Unsupported);
    let mut fields = payload.struct_variant(strings(&["bar"]));
    assert_eq!(fields.next_entry(), Some(("bar".to_string(), Node::new("xxx"))));

    let err = EnumAccessor::new(strings(&["X"]), Node::new("Z")).variant_seed().unwrap_err();
    assert_eq!(err.kind(), ErrorKind::MissingVariant);
    assert_eq!(err.detail(), "Z");
}

#[test]
fn variant_accessor_payloads() {
    let unit = VariantAccessor::new(Node::new("X"));
    assert!(unit.unit_variant().is_ok());
    assert_eq!(unit.newtype_variant(), Node::new("X"));
}

#[test]
fn node_duplicate_is_equal() {
    let root = Node::from_iter(&vec![("A_B".to_string(), "1".to_string())]);
    assert_eq!(root.duplicate(), root);
}
