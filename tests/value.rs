use serde_env::Node;

fn pairs(items: &[(&str, &str)]) -> Vec<(String, String)> {
    items.iter().map(|(k, v)| (k.to_string(), v.to_string())).collect()
}

#[test]
fn test_get() {
    let mut root = Node::new("");

    root.push("a_b_c_d", "Hello, World!");
    root.push("a_b_c_e", "Hello, Mars!");
    root.push("a_b_f", "Hello, Moon!");

    assert_eq!(root.get("a_b_c_d"), Some(&Node::new("Hello, World!")));
    assert_eq!(root.get("a_b_c_e"), Some(&Node::new("Hello, Mars!")));
    assert_eq!(root.get("a_b_f"), Some(&Node::new("Hello, Moon!")));
    assert_eq!(
        root.get("a_b_c"),
        Some(
            &Node::new("")
                .with_child("d", Node::new("Hello, World!"))
                .with_child("e", Node::new("Hello, Mars!"))
        )
    );
}

#[test]
fn test_push() {
    let mut root = Node::new("");

    root.push("a_b_c_d", "Hello, World!");
    root.push("a_b_c_e", "Hello, Mars!");
    root.push("a_b_f", "Hello, Moon!");
    root.push("a", "Hello, Earth!");

    assert_eq!(
        root,
        Node::new("").with_child(
            "a",
            Node::new("Hello, Earth!").with_child(
                "b",
                Node::new("")
                    .with_child(
                        "c",
                        Node::new("")
                            .with_child("d", Node::new("Hello, World!"))
                            .with_child("e", Node::new("Hello, Mars!"))
                    )
                    .with_child("f", Node::new("Hello, Moon!"))
            )
        )
    )
}

#[test]
fn test_flatten() {
    let mut root = Node::new("");

    root.push("a", "Hello, World!");
    root.push("a_b_c_d", "Hello, World!");
    root.push("a_b_c_e", "Hello, Mars!");
    root.push("a_b_f", "Hello, Moon!");

    let expected: Vec<String> = vec!["a", "a_b", "a_b_c", "a_b_c_d", "a_b_c_e", "a_b_f"]
        .into_iter()
        .map(String::from)
        .collect();

    assert_eq!(root.flatten(""), expected);
}

#[test]
fn test_prefix() {
    let root = Node::from_iter_with_prefix(&pairs(&[("TEST_ENV_VAR", "Hello, World!")]), "TEST_ENV");
    assert_eq!(root.get("var"), Some(&Node::new("Hello, World!")));
}

#[test]
fn prefix_is_matched_in_any_case_and_others_are_dropped() {
    let root = Node::from_iter_with_prefix(
        &pairs(&[("test_env_home", "/test"), ("TEST_ENVX", "no"), ("OTHER_PATH", "x")]),
        "Test_Env",
    );
    assert_eq!(root, Node::new("").with_child("home", Node::new("/test")));
}

#[test]
fn flatten_with_prefix_joins_by_underscore() {
    let mut root = Node::new("");
    root.push("x_y", "1");
    let expected: Vec<String> = vec!["p_x".to_string(), "p_x_y".to_string()];
    assert_eq!(root.flatten("p"), expected);
}

#[test]
fn flatten_sorts_by_code_point() {
    let mut root = Node::new("");
    root.push("a_x", "1");
    root.push("a0", "2");
    let expected: Vec<String> = vec!["a".to_string(), "a0".to_string(), "a_x".to_string()];
    assert_eq!(root.flatten(""), expected);
}

#[test]
fn round_trip_of_every_key() {
    let input = pairs(&[
        ("A_B_C", "1"),
        ("A", "2"),
        ("A_B", "3"),
        ("X_Y_Z_W", "4"),
        ("X", "5"),
    ]);
    let root = Node::from_iter(&input);
    for (k, v) in &input {
        let node = root.get(&k.to_lowercase()).expect("key is present");
        assert_eq!(node.value(), v.as_str());
    }
}

#[test]
fn coexistence_of_parent_and_child_keys() {
    for input in [pairs(&[("A", "x"), ("A_B", "y")]), pairs(&[("A_B", "y"), ("A", "x")])] {
        let root = Node::from_iter(&input);
        assert_eq!(root.get("a").map(|n| n.value()), Some("x"));
        assert_eq!(root.get("a_b").map(|n| n.value()), Some("y"));
    }
}

#[test]
fn empty_values_are_dropped() {
    let root = Node::from_iter(&pairs(&[("A", ""), ("B", "1")]));
    assert_eq!(root.get("a"), None);
    assert_eq!(root, Node::new("").with_child("b", Node::new("1")));
}

#[test]
fn later_value_replaces_earlier_and_keeps_children() {
    let root = Node::from_iter(&pairs(&[("A", "1"), ("A_B", "2"), ("a", "3")]));
    assert_eq!(
        root,
        Node::new("").with_child("a", Node::new("3").with_child("b", Node::new("2")))
    );
}

#[test]
fn keys_are_folded_to_lower_case() {
    let upper = Node::from_iter(&pairs(&[("FOO_BAR", "1")]));
    let lower = Node::from_iter(&pairs(&[("foo_bar", "1")]));
    assert_eq!(upper, lower);
    let accented = Node::from_iter(&pairs(&[("ÄB_C", "1")]));
    assert_eq!(accented.get("äb_c"), Some(&Node::new("1")));
}

#[test]
fn missing_paths_give_nothing() {
    let root = Node::from_iter(&pairs(&[("A_B", "1")]));
    assert_eq!(root.get("a_c"), None);
    assert_eq!(root.get("b"), None);
    assert_eq!(root.get("a_b_c"), None);
}

#[test]
fn node_queries() {
    let root = Node::from_iter(&pairs(&[("A_B", "1")]));
    let a = root.get("a").expect("present");
    assert!(!a.is_empty());
    assert!(a.has_children());
    assert_eq!(a.value(), "");
    let b = root.get("a_b").expect("present");
    assert!(!b.has_children());
    assert_eq!(Node::new("1").into_value(), "1".to_string());
    assert!(Node::new("").is_empty());
}

#[test]
fn with_child_replaces_an_existing_child() {
    let n = Node::new("").with_child("k", Node::new("1")).with_child("k", Node::new("2"));
    assert_eq!(n, Node::new("").with_child("k", Node::new("2")));
}
