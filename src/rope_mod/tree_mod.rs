use std::sync::Arc;
use vstd::prelude::*;

use super::branch_mod::Branch;
use super::leaf_mod::Leaf;

verus! {

/// A node of the rope: a leaf holding text, or a branch joining two optional
/// subtrees.
pub enum Tree {
    Branch(Branch),
    Leaf(Leaf),
}

/// The text spanned by an optional subtree; an absent subtree is empty.
pub open(crate) spec fn opt_text(t: Option<Arc<Tree>>) -> Seq<char>
    decreases t,
{
    match t {
        None => Seq::empty(),
        Some(n) => (*n).text(),
    }
}

/// Well-formedness of an optional subtree.
pub open(crate) spec fn opt_wf(t: Option<Arc<Tree>>) -> bool
    decreases t,
{
    match t {
        None => true,
        Some(n) => (*n).wf(),
    }
}

/// Depth of an optional subtree; an absent subtree has depth zero.
pub open(crate) spec fn opt_depth(t: Option<Arc<Tree>>) -> nat
    decreases t,
{
    match t {
        None => 0,
        Some(n) => (*n).depth(),
    }
}

/// Number of leaves in an optional subtree.
pub open(crate) spec fn opt_leaf_count(t: Option<Arc<Tree>>) -> nat
    decreases t,
{
    match t {
        None => 0,
        Some(n) => (*n).leaf_count(),
    }
}

/// The leaves of an optional subtree that hold at least one character, left
/// to right, each as the link the tree holds.
pub open(crate) spec fn nonempty_leaves(t: Option<Arc<Tree>>) -> Seq<Arc<Tree>>
    decreases t,
{
    match t {
        None => Seq::empty(),
        Some(n) => match *n {
            Tree::Leaf(l) => if l@.len() > 0 {
                seq![n]
            } else {
                Seq::empty()
            },
            Tree::Branch(b) => nonempty_leaves(b.left) + nonempty_leaves(b.right),
        },
    }
}

impl Tree {
    /// Number of leaves in this subtree.
    pub open(crate) spec fn leaf_count(self) -> nat
        decreases self,
    {
        match self {
            Tree::Leaf(_) => 1,
            Tree::Branch(b) => opt_leaf_count(b.left) + opt_leaf_count(b.right),
        }
    }

    /// The text spanned by this subtree, in document order.
    pub open(crate) spec fn text(self) -> Seq<char>
        decreases self,
    {
        match self {
            Tree::Leaf(l) => l@,
            Tree::Branch(b) => opt_text(b.left) + opt_text(b.right),
        }
    }

    /// Every cached weight and length in this subtree agrees with the text it
    /// spans, and the total fits in a `usize`.
    pub open(crate) spec fn wf(self) -> bool
        decreases self,
    {
        &&& self.text().len() <= usize::MAX
        &&& match self {
            Tree::Leaf(l) => l.wf(),
            Tree::Branch(b) => {
                &&& b.left_weight as nat == opt_text(b.left).len()
                &&& b.right_weight as nat == opt_text(b.right).len()
                &&& opt_wf(b.left)
                &&& opt_wf(b.right)
            },
        }
    }

    /// Number of nodes on the longest path from this node down to a leaf.
    pub open(crate) spec fn depth(self) -> nat
        decreases self,
    {
        match self {
            Tree::Leaf(_) => 1,
            Tree::Branch(b) => 1 + vstd::math::max(
                opt_depth(b.left) as int,
                opt_depth(b.right) as int,
            ) as nat,
        }
    }

    /// Creates a leaf holding the given text.
    pub fn new_leaf(data: String) -> (r: Tree)
        ensures
            r.wf(),
            r.text() == data@,
            r is Leaf,
    {
        Tree::Leaf(Leaf::new(data))
    }

    /// Creates a branch over the two given subtrees, caching their weights.
    pub fn new_branch(left: Option<Arc<Tree>>, right: Option<Arc<Tree>>) -> (r: Option<Arc<Tree>>)
        requires
            opt_wf(left),
            opt_wf(right),
            opt_text(left).len() + opt_text(right).len() <= usize::MAX,
        ensures
            r is Some,
            match *r->0 {
                Tree::Branch(b) => b.left_spec() == left && b.right_spec() == right,
                Tree::Leaf(_) => false,
            },
            opt_wf(r),
            opt_text(r) == opt_text(left) + opt_text(right),
            opt_depth(r) == 1 + vstd::math::max(opt_depth(left) as int, opt_depth(right) as int),
            opt_leaf_count(r) == opt_leaf_count(left) + opt_leaf_count(right),
            nonempty_leaves(r) == nonempty_leaves(left) + nonempty_leaves(right),
    {
        Some(Arc::new(Tree::Branch(Branch::new(left, right))))
    }

    /// The number of characters this subtree spans.
    pub fn get_weight(&self) -> (r: usize)
        requires
            self.wf(),
        ensures
            r as nat == self.text().len(),
    {
        match self {
            Tree::Branch(branch) => branch.get_weight(),
            Tree::Leaf(leaf) => leaf.get_length(),
        }
    }
}

} // verus!
