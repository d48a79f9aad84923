use std::sync::Arc;
use vstd::prelude::*;

use super::tree_mod::{opt_text, opt_wf, Tree};

verus! {

/// An internal node: two optional subtrees and the weight of each, computed
/// once when the branch is built.
pub struct Branch {
    pub(crate) left_weight: usize,
    pub(crate) right_weight: usize,
    pub(crate) left: Option<Arc<Tree>>,
    pub(crate) right: Option<Arc<Tree>>,
}

impl Branch {
    /// The left subtree.
    pub open(crate) spec fn left_spec(&self) -> Option<Arc<Tree>> {
        self.left
    }

    /// The right subtree.
    pub open(crate) spec fn right_spec(&self) -> Option<Arc<Tree>> {
        self.right
    }

    /// Both cached weights agree with the children and both children are
    /// well formed.
    pub open(crate) spec fn wf(&self) -> bool {
        &&& self.left_weight as nat == opt_text(self.left).len()
        &&& self.right_weight as nat == opt_text(self.right).len()
        &&& opt_wf(self.left)
        &&& opt_wf(self.right)
        &&& self.left_weight + self.right_weight <= usize::MAX
    }

    /// The text spanned by the branch: the left text followed by the right.
    pub open(crate) spec fn text(&self) -> Seq<char> {
        opt_text(self.left) + opt_text(self.right)
    }

    /// Returns a new branch over the given subtrees; an absent subtree weighs
    /// zero.
    pub fn new(left: Option<Arc<Tree>>, right: Option<Arc<Tree>>) -> (r: Self)
        requires
            opt_wf(left),
            opt_wf(right),
            opt_text(left).len() + opt_text(right).len() <= usize::MAX,
        ensures
            r.wf(),
            r.left_spec() == left,
            r.right_spec() == right,
    {
        let left_weight = if let Some(ref l) = left {
            l.get_weight()
        } else {
            0
        };
        let right_weight = if let Some(ref r) = right {
            r.get_weight()
        } else {
            0
        };
        Branch { left_weight, right_weight, left, right }
    }

    /// The number of characters spanned by the branch.
    pub fn get_weight(&self) -> (r: usize)
        requires
            self.wf(),
        ensures
            r as nat == self.text().len(),
    {
        self.left_weight + self.right_weight
    }

    /// The number of characters spanned by the left subtree.
    pub fn get_left_weight(&self) -> (r: usize)
        requires
            self.wf(),
        ensures
            r as nat == opt_text(self.left_spec()).len(),
    {
        self.left_weight
    }

    /// The number of characters spanned by the right subtree.
    pub fn get_right_weight(&self) -> (r: usize)
        requires
            self.wf(),
        ensures
            r as nat == opt_text(self.right_spec()).len(),
    {
        self.right_weight
    }

    /// A new shared link to the left subtree.
    pub fn get_left(&self) -> (r: Option<Arc<Tree>>)
        ensures
            r == self.left_spec(),
    {
        match &self.left {
            Some(l) => Some(Arc::clone(l)),
            None => None,
        }
    }

    /// A new shared link to the right subtree.
    pub fn get_right(&self) -> (r: Option<Arc<Tree>>)
        ensures
            r == self.right_spec(),
    {
        match &self.right {
            Some(l) => Some(Arc::clone(l)),
            None => None,
        }
    }
}

} // verus!
