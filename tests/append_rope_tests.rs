use rope::Rope;

#[test]
fn add_branch_collects_in_order() {
    let mut rope = Rope::new();
    assert_eq!(rope.collect_leaves(), "");
    rope.add_branch("Hello, ".to_string());
    assert_eq!(rope.collect_leaves(), "Hello, ");
    rope.add_branch("World!".to_string());
    assert_eq!(rope.collect_leaves(), "Hello, World!");
}

#[test]
fn add_branch_keeps_multibyte_characters_whole() {
    let mut rope = Rope::new();
    rope.add_branch("✓é".to_string());
    rope.add_branch("日本語".to_string());
    rope.add_branch("a".to_string());
    assert_eq!(rope.collect_leaves(), "✓é日本語a");
}

#[test]
fn add_branch_with_empty_fragments() {
    let mut rope = Rope::new();
    rope.add_branch(String::new());
    assert_eq!(rope.collect_leaves(), "");
    rope.add_branch("xyz".to_string());
    rope.add_branch(String::new());
    assert_eq!(rope.collect_leaves(), "xyz");
}

#[test]
fn add_branch_many_fragments() {
    let mut rope = Rope::new();
    let mut expected = String::new();
    for k in 0..300usize {
        let piece = format!("{}-", k);
        expected.push_str(&piece);
        rope.add_branch(piece);
    }
    assert_eq!(rope.collect_leaves(), expected);
}
