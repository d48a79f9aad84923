use std::sync::Arc;

use rope::rope_mod::branch_mod::Branch;
use rope::rope_mod::leaf_mod::Leaf;
use rope::rope_mod::stack_mod::{ArcStack, TreeDFSStack};
use rope::rope_mod::tree_mod::Tree;

#[test]
fn leaf_counts_characters() {
    let leaf = Leaf::new("añb✓".to_string());
    assert_eq!(leaf.get_length(), 4);
    assert_eq!(leaf.get_text(), "añb✓");
    let empty = Leaf::new(String::new());
    assert_eq!(empty.get_length(), 0);
    assert_eq!(empty.get_text(), "");
}

#[test]
fn branch_caches_child_weights() {
    let left = Arc::new(Tree::new_leaf("abc".to_string()));
    let right = Arc::new(Tree::new_leaf("de".to_string()));
    let branch = Branch::new(Some(left), Some(right));
    assert_eq!(branch.get_left_weight(), 3);
    assert_eq!(branch.get_right_weight(), 2);
    assert_eq!(branch.get_weight(), 5);
    assert_eq!(branch.get_left().map(|t| t.get_weight()), Some(3));
    assert_eq!(branch.get_right().map(|t| t.get_weight()), Some(2));
}

#[test]
fn branch_with_absent_children_weighs_zero() {
    let branch = Branch::new(None, None);
    assert_eq!(branch.get_weight(), 0);
    assert!(branch.get_left().is_none());
    assert!(branch.get_right().is_none());
    let half = Branch::new(None, Some(Arc::new(Tree::new_leaf("xyz".to_string()))));
    assert_eq!(half.get_left_weight(), 0);
    assert_eq!(half.get_right_weight(), 3);
}

#[test]
fn tree_weights() {
    let leaf = Tree::new_leaf("héllo".to_string());
    assert_eq!(leaf.get_weight(), 5);
    let inner = Tree::new_branch(
        Some(Arc::new(Tree::new_leaf("ab".to_string()))),
        Some(Arc::new(Tree::new_leaf("cde".to_string()))),
    );
    let outer = Tree::new_branch(inner, Some(Arc::new(leaf)));
    assert_eq!(outer.map(|t| t.get_weight()), Some(10));
}

fn weights(stack: &mut ArcStack<Tree>) -> Vec<usize> {
    let mut out = Vec::new();
    while let Some(t) = stack.pop() {
        out.push(t.get_weight());
    }
    out
}

fn leaf(n: usize) -> Arc<Tree> {
    Arc::new(Tree::new_leaf("x".repeat(n)))
}

#[test]
fn arc_stack_is_last_in_first_out() {
    let mut stack: ArcStack<Tree> = ArcStack::new();
    assert!(stack.peek().is_none());
    assert!(stack.pop().is_none());
    stack.push(leaf(1));
    stack.push(leaf(2));
    stack.push(leaf(3));
    assert_eq!(stack.peek().map(|t| t.get_weight()), Some(3));
    let (l, r) = stack.peek_two();
    assert_eq!(l.map(|t| t.get_weight()), Some(2));
    assert_eq!(r.map(|t| t.get_weight()), Some(3));
    assert_eq!(weights(&mut stack), vec![3, 2, 1]);
}

#[test]
fn arc_stack_pop_two_and_reverse() {
    let mut stack: ArcStack<Tree> = ArcStack::new();
    for n in 1..=5 {
        stack.push(leaf(n));
    }
    let (last, second_last) = stack.pop_two();
    assert_eq!(last.map(|t| t.get_weight()), Some(5));
    assert_eq!(second_last.map(|t| t.get_weight()), Some(4));
    stack.reverse();
    assert_eq!(weights(&mut stack), vec![1, 2, 3]);
    stack.push(leaf(7));
    let (last, second_last) = stack.pop_two();
    assert_eq!(last.map(|t| t.get_weight()), Some(7));
    assert!(second_last.is_none());
    let (l, r) = stack.peek_two();
    assert!(l.is_none() && r.is_none());
}

#[test]
fn dfs_stack_tracks_visited_flags() {
    let mut stack = TreeDFSStack::new();
    assert!(stack.peek_item().is_none());
    assert!(!stack.get_left_visited());
    assert!(!stack.get_right_visited());
    stack.set_left_visited(true);
    assert!(!stack.get_left_visited());
    stack.push(leaf(2), (false, false));
    stack.push(leaf(4), (false, false));
    assert_eq!(stack.len(), 2);
    stack.set_left_visited(true);
    assert!(stack.get_left_visited());
    assert!(!stack.get_right_visited());
    stack.set_right_visited(true);
    assert!(stack.get_left_visited() && stack.get_right_visited());
    assert_eq!(stack.peek_item().map(|t| t.get_weight()), Some(4));
    assert_eq!(stack.pop().map(|t| t.get_weight()), Some(4));
    assert!(!stack.get_left_visited());
    assert_eq!(stack.peek_item().map(|t| t.get_weight()), Some(2));
    assert_eq!(stack.pop().map(|t| t.get_weight()), Some(2));
    assert!(stack.pop().is_none());
    assert_eq!(stack.len(), 0);
}
