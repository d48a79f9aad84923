//! A persistent rope: a tree of text fragments supporting append, rebalancing,
//! whole-text retrieval, indexed character lookup and range extraction.
//!
//! [`rope_mod::Rope`] is the full document type. [`Rope`] at the crate root
//! is a minimal append-only rope over the same nodes: text goes in at the end
//! and comes back out whole.

use std::sync::Arc;
use vstd::prelude::*;

pub mod rope_mod;

use rope_mod::stack_mod::TreeDFSStack;
use rope_mod::tree_mod::{opt_text, opt_wf, Tree};
use rope_mod::{
    cost_all, frame_cost, is_appended_root, lemma_fresh_frame, lemma_opt_frame, opt_cost, pending,
    pending_all, Frame,
};

verus! {

/// An append-only rope: fragments are added at the end and the whole text
/// is read back with a depth-first walk.
pub struct Rope {
    head: Option<Arc<Tree>>,
}

impl View for Rope {
    type V = Seq<char>;

    /// The whole document.
    closed spec fn view(&self) -> Seq<char> {
        opt_text(self.head)
    }
}

impl Rope {
    /// Every node's cached weights agree with the text below it.
    pub closed spec fn wf(&self) -> bool {
        opt_wf(self.head)
    }

    /// The root of the tree, if any.
    pub closed spec fn root(&self) -> Option<Arc<Tree>> {
        self.head
    }

    /// Returns a new, empty rope.
    pub fn new() -> (r: Self)
        ensures
            r.wf(),
            r@ == Seq::<char>::empty(),
    {
        Rope { head: None }
    }

    /// Adds the given text at the end. The text is split at its middle
    /// character into two leaves, the left one taking the shorter half, under
    /// a new branch that becomes the right child of a new root.
    pub fn add_branch(&mut self, data: String)
        requires
            old(self).wf(),
            old(self)@.len() + data@.len() <= usize::MAX,
        ensures
            final(self).wf(),
            final(self)@ == old(self)@ + data@,
            is_appended_root(old(self).root(), final(self).root(), data@),
    {
        let data_len: usize = data.as_str().unicode_len();
        let split_index: usize = data_len / 2;
        let left_data = data.as_str().substring_char(0, split_index).to_owned();
        let right_data = data.as_str().substring_char(split_index, data_len).to_owned();
        assert(left_data@ + right_data@ =~= data@);

        let new_right_branch = Tree::new_branch(
            Some(Arc::new(Tree::new_leaf(left_data))),
            Some(Arc::new(Tree::new_leaf(right_data))),
        );
        if self.head.is_some() {
            self.head = Tree::new_branch(self.head.take(), new_right_branch);
        } else {
            self.head = new_right_branch;
        }
    }

    /// Returns the whole text, gathered leaf by leaf in a depth-first walk.
    pub fn collect_leaves(&self) -> (r: String)
        requires
            self.wf(),
        ensures
            r@ == self@,
    {
        let mut collected_text: String = String::new();
        let mut stack: TreeDFSStack = TreeDFSStack::new();
        if let Some(tree) = &self.head {
            stack.push(Arc::clone(tree), (false, false));
            proof {
                lemma_fresh_frame(*tree);
                assert(stack@.drop_last() =~= Seq::<Frame>::empty());
                assert(pending_all(stack@) == pending(stack@.last()) + pending_all(
                    stack@.drop_last(),
                ));
                assert(collected_text@ + pending_all(stack@) =~= self@);
            }
        } else {
            assert(collected_text@ + pending_all(stack@) =~= self@);
        }
        loop
            invariant
                stack.wf(),
                collected_text@ + pending_all(stack@) == self@,
                forall|k: int| 0 <= k < stack@.len() ==> (*(#[trigger] stack@[k]).0).wf(),
                forall|k: int| 0 <= k < stack@.len() ==> (#[trigger] stack@[k]).1.1 ==> stack@[k].1.0,
            ensures
                stack@.len() == 0,
            decreases cost_all(stack@),
        {
            let this_tree = match stack.peek_item() {
                Some(t) => t,
                None => break,
            };
            let ghost s = stack@;
            let ghost n = s.len();
            let ghost before = collected_text@;
            assert(s[n - 1].1.1 ==> s[n - 1].1.0);
            assert(pending_all(s) == pending(s[n - 1]) + pending_all(s.drop_last()));
            assert(cost_all(s) == frame_cost(s[n - 1]) + cost_all(s.drop_last()));
            match &*this_tree {
                Tree::Branch(branch) => {
                    if !stack.get_left_visited() {
                        stack.set_left_visited(true);
                        let ghost s1 = stack@;
                        assert(s1.drop_last() =~= s.drop_last());
                        assert(pending_all(s1) == opt_text(branch.right) + pending_all(s.drop_last()));
                        assert(cost_all(s1) == 2 + opt_cost(branch.right) + cost_all(s.drop_last()));
                        let left = branch.get_left();
                        proof { lemma_opt_frame(left); }
                        if let Some(left_sub_branch) = left {
                            stack.push(left_sub_branch, (false, false));
                            assert(stack@.drop_last() =~= s1);
                            assert(pending_all(stack@) == opt_text(branch.left) + pending_all(s1));
                            assert(cost_all(stack@) == opt_cost(branch.left) + cost_all(s1));
                        }
                        assert(before + pending_all(stack@) =~= self@);
                    } else if !stack.get_right_visited() {
                        stack.set_right_visited(true);
                        let ghost s1 = stack@;
                        assert(s1.drop_last() =~= s.drop_last());
                        assert(pending_all(s1) == pending_all(s.drop_last()));
                        assert(cost_all(s1) == 1 + cost_all(s.drop_last()));
                        let right = branch.get_right();
                        proof { lemma_opt_frame(right); }
                        if let Some(right_sub_branch) = right {
                            stack.push(right_sub_branch, (false, false));
                            assert(stack@.drop_last() =~= s1);
                            assert(pending_all(stack@) == opt_text(branch.right) + pending_all(s1));
                            assert(cost_all(stack@) == opt_cost(branch.right) + cost_all(s1));
                        }
                        assert(before + pending_all(stack@) =~= self@);
                    } else {
                        stack.pop();
                        assert(before + pending_all(stack@) =~= self@);
                    }
                },
                Tree::Leaf(leaf) => {
                    collected_text.append(leaf.get_text().as_str());
                    stack.pop();
                    assert(collected_text@ + pending_all(stack@) =~= self@);
                },
            }
        }
        assert(collected_text@ + pending_all(stack@) =~= collected_text@);
        collected_text
    }
}

} // verus!
