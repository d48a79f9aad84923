use std::sync::Arc;
use vstd::arithmetic::power2::{
    lemma2_to64, lemma_pow2_pos, lemma_pow2_strictly_increases, lemma_pow2_unfold, pow2,
};
use vstd::prelude::*;

pub mod leaf_mod;
pub mod branch_mod;
pub mod tree_mod;
pub mod stack_mod;

use stack_mod::{ArcStack, TreeDFSStack};
use tree_mod::{nonempty_leaves, opt_depth, opt_leaf_count, opt_text, opt_wf, Tree};

verus! {

/// A frame of the depth-first walk: a node and its (left, right) visited flags.
pub(crate) type Frame = (Arc<Tree>, (bool, bool));

/// The text of a frame that the walk has yet to emit.
pub(crate) open spec fn pending(f: Frame) -> Seq<char> {
    match *f.0 {
        Tree::Leaf(l) => l@,
        Tree::Branch(b) => if !f.1.0 {
            opt_text(b.left) + opt_text(b.right)
        } else if !f.1.1 {
            opt_text(b.right)
        } else {
            Seq::empty()
        },
    }
}

/// The text that the walk has yet to emit, top frame first.
pub(crate) open spec fn pending_all(s: Seq<Frame>) -> Seq<char>
    decreases s.len(),
{
    if s.len() == 0 {
        Seq::empty()
    } else {
        pending(s.last()) + pending_all(s.drop_last())
    }
}

/// The non-empty leaves of a frame that the walk has yet to reach.
pub(crate) open spec fn pending_leaves(f: Frame) -> Seq<Arc<Tree>> {
    match *f.0 {
        Tree::Leaf(l) => if l@.len() > 0 {
            seq![f.0]
        } else {
            Seq::empty()
        },
        Tree::Branch(b) => if !f.1.0 {
            nonempty_leaves(b.left) + nonempty_leaves(b.right)
        } else if !f.1.1 {
            nonempty_leaves(b.right)
        } else {
            Seq::empty()
        },
    }
}

/// The non-empty leaves that the walk has yet to reach, top frame first.
pub(crate) open spec fn pending_leaves_all(s: Seq<Frame>) -> Seq<Arc<Tree>>
    decreases s.len(),
{
    if s.len() == 0 {
        Seq::empty()
    } else {
        pending_leaves(s.last()) + pending_leaves_all(s.drop_last())
    }
}

/// Steps a fresh walk of a subtree takes.
pub(crate) open spec fn tree_cost(t: Tree) -> nat
    decreases t,
{
    match t {
        Tree::Leaf(_) => 1,
        Tree::Branch(b) => 3 + opt_cost(b.left) + opt_cost(b.right),
    }
}

/// Steps a fresh walk of an optional subtree takes.
pub(crate) open spec fn opt_cost(t: Option<Arc<Tree>>) -> nat
    decreases t,
{
    match t {
        None => 0,
        Some(n) => tree_cost(*n),
    }
}

/// Steps the walk still takes on a frame.
pub(crate) open spec fn frame_cost(f: Frame) -> nat {
    match *f.0 {
        Tree::Leaf(_) => 1,
        Tree::Branch(b) => if !f.1.0 {
            3 + opt_cost(b.left) + opt_cost(b.right)
        } else if !f.1.1 {
            2 + opt_cost(b.right)
        } else {
            1
        },
    }
}

pub(crate) open spec fn cost_all(s: Seq<Frame>) -> nat
    decreases s.len(),
{
    if s.len() == 0 {
        0
    } else {
        frame_cost(s.last()) + cost_all(s.drop_last())
    }
}

/// The length of the longest root-to-leaf path that the walk can still reach
/// through the frame at stack position `k`.
spec fn frame_reach(k: int, f: Frame) -> int {
    match *f.0 {
        Tree::Leaf(_) => k + 1,
        Tree::Branch(b) => if !f.1.0 {
            k + (*f.0).depth()
        } else if !f.1.1 {
            k + 1 + opt_depth(b.right)
        } else {
            k + 1
        },
    }
}

/// The longest path the walk can still reach through any frame.
spec fn reach_all(s: Seq<Frame>) -> int
    decreases s.len(),
{
    if s.len() == 0 {
        0
    } else {
        vstd::math::max(reach_all(s.drop_last()), frame_reach(s.len() - 1, s.last()))
    }
}

/// The concatenated texts of a sequence of nodes, first to last.
pub(crate) open spec fn nodes_text(s: Seq<Arc<Tree>>) -> Seq<char>
    decreases s.len(),
{
    if s.len() == 0 {
        Seq::empty()
    } else {
        nodes_text(s.drop_last()) + (*s.last()).text()
    }
}

/// The concatenated texts of a stack of nodes, top first.
pub(crate) open spec fn stack_text(s: Seq<Arc<Tree>>) -> Seq<char>
    decreases s.len(),
{
    if s.len() == 0 {
        Seq::empty()
    } else {
        (*s.last()).text() + stack_text(s.drop_last())
    }
}

proof fn lemma_nodes_text_concat(a: Seq<Arc<Tree>>, b: Seq<Arc<Tree>>)
    ensures
        nodes_text(a + b) == nodes_text(a) + nodes_text(b),
    decreases b.len(),
{
    if b.len() == 0 {
        assert(a + b =~= a);
        assert(nodes_text(a) + nodes_text(b) =~= nodes_text(a));
    } else {
        assert((a + b).drop_last() =~= a + b.drop_last());
        lemma_nodes_text_concat(a, b.drop_last());
        assert(nodes_text(a + b) =~= nodes_text(a) + nodes_text(b));
    }
}

proof fn lemma_stack_text_reverse(s: Seq<Arc<Tree>>)
    ensures
        stack_text(s) == nodes_text(s.reverse()),
    decreases s.len(),
{
    if s.len() > 0 {
        lemma_stack_text_reverse(s.drop_last());
        assert(s.reverse() =~= seq![s.last()] + s.drop_last().reverse());
        lemma_nodes_text_concat(seq![s.last()], s.drop_last().reverse());
        assert(seq![s.last()].drop_last() =~= Seq::<Arc<Tree>>::empty());
        let one = seq![s.last()];
        assert(one.last() == s.last());
        assert(nodes_text(one.drop_last()) == Seq::<char>::empty());
        assert(nodes_text(one) =~= (*s.last()).text());
    } else {
        assert(s.reverse() =~= s);
    }
}

/// The total number of leaves under a sequence of nodes.
spec fn nodes_leaf_count(s: Seq<Arc<Tree>>) -> nat
    decreases s.len(),
{
    if s.len() == 0 {
        0
    } else {
        nodes_leaf_count(s.drop_last()) + (*s.last()).leaf_count()
    }
}

/// The non-empty leaves under a sequence of nodes, first node first.
spec fn nodes_leaves(s: Seq<Arc<Tree>>) -> Seq<Arc<Tree>>
    decreases s.len(),
{
    if s.len() == 0 {
        Seq::empty()
    } else {
        nodes_leaves(s.drop_last()) + nonempty_leaves(Some(s.last()))
    }
}

proof fn lemma_text_leaves(s: Seq<Arc<Tree>>)
    requires
        forall|k: int| 0 <= k < s.len() ==> is_text_leaf(*#[trigger] s[k]),
    ensures
        nodes_leaf_count(s) == s.len(),
        nodes_text(s).len() >= s.len(),
        nodes_leaves(s) == s,
    decreases s.len(),
{
    if s.len() > 0 {
        assert(is_text_leaf(*s[s.len() - 1]));
        lemma_text_leaves(s.drop_last());
        assert(nonempty_leaves(Some(s.last())) == seq![s.last()]);
        assert(s.drop_last().push(s.last()) =~= s);
    } else {
        assert(nodes_leaves(s) =~= s);
    }
}

/// Extends the texts and leaf counts of a prefix by one more node.
proof fn lemma_prefix_step(s: Seq<Arc<Tree>>, k: int)
    requires
        0 <= k < s.len(),
    ensures
        nodes_text(s.subrange(0, k + 1)) == nodes_text(s.subrange(0, k)) + (*s[k]).text(),
        nodes_leaf_count(s.subrange(0, k + 1)) == nodes_leaf_count(s.subrange(0, k)) + (
        *s[k]).leaf_count(),
        nodes_text(s.subrange(0, k + 1)).len() <= nodes_text(s).len(),
        nodes_leaves(s.subrange(0, k + 1)) == nodes_leaves(s.subrange(0, k)) + nonempty_leaves(
            Some(s[k]),
        ),
{
    assert(s.subrange(0, k + 1).drop_last() =~= s.subrange(0, k));
    assert(s =~= s.subrange(0, k + 1) + s.subrange(k + 1, s.len() as int));
    lemma_nodes_text_concat(s.subrange(0, k + 1), s.subrange(k + 1, s.len() as int));
}

/// A well-formed leaf holding at least one character.
pub(crate) open spec fn is_text_leaf(t: Tree) -> bool {
    t is Leaf && t.wf() && t.text().len() > 0
}

pub(crate) proof fn lemma_fresh_frame(t: Arc<Tree>)
    ensures
        pending((t, (false, false))) == (*t).text(),
        pending_leaves((t, (false, false))) == nonempty_leaves(Some(t)),
        frame_cost((t, (false, false))) == tree_cost(*t),
{
}

pub(crate) proof fn lemma_opt_frame(o: Option<Arc<Tree>>)
    ensures
        o is Some ==> pending((o->0, (false, false))) == opt_text(o),
        o is Some ==> pending_leaves((o->0, (false, false))) == nonempty_leaves(o),
        o is None ==> nonempty_leaves(o) == Seq::<Arc<Tree>>::empty(),
        o is Some ==> frame_cost((o->0, (false, false))) == opt_cost(o),
        o is None ==> opt_text(o) == Seq::<char>::empty() && opt_cost(o) == 0,
{
}

/// Number of fragments of `chunk_len` characters, the last possibly shorter,
/// that `n` characters are cut into; a `chunk_len` of zero keeps them whole.
pub open spec fn fragment_count(n: nat, chunk_len: nat) -> nat
    decreases n,
{
    if n == 0 {
        0
    } else if chunk_len == 0 || n <= chunk_len {
        1
    } else {
        1 + fragment_count((n - chunk_len) as nat, chunk_len)
    }
}

/// `t` is a branch over two leaves that hold `data` split at its middle
/// character: the left leaf takes the first `data.len() / 2` characters and
/// the right leaf the rest.
pub open(crate) spec fn is_split_fragment(t: Option<Arc<Tree>>, data: Seq<char>) -> bool {
    match t {
        Some(n) => match *n {
            Tree::Branch(b) => {
                &&& b.left_spec() is Some
                &&& b.right_spec() is Some
                &&& (*(b.left_spec()->0)) is Leaf
                &&& (*(b.right_spec()->0)) is Leaf
                &&& (*(b.left_spec()->0)).text() == data.subrange(0, (data.len() / 2) as int)
                &&& (*(b.right_spec()->0)).text() == data.subrange(
                    (data.len() / 2) as int,
                    data.len() as int,
                )
            },
            Tree::Leaf(_) => false,
        },
        None => false,
    }
}

/// `new_root` is the root after appending `data` to a tree whose root was
/// `old_root`: the split fragment itself where there was no root, else a
/// branch whose left child is the old root and whose right child is the
/// split fragment.
pub open(crate) spec fn is_appended_root(
    old_root: Option<Arc<Tree>>,
    new_root: Option<Arc<Tree>>,
    data: Seq<char>,
) -> bool {
    match old_root {
        None => is_split_fragment(new_root, data),
        Some(_) => match new_root {
            Some(n) => match *n {
                Tree::Branch(b) => b.left_spec() == old_root && is_split_fragment(
                    b.right_spec(),
                    data,
                ),
                Tree::Leaf(_) => false,
            },
            None => false,
        },
    }
}

/// A frame of a range extraction: a node and the document offset at which its
/// text starts.
type Span = (Arc<Tree>, usize);

/// Number of frames whose text lies wholly before document offset `i`.
spec fn spent_count(s: Seq<Span>, i: int) -> nat
    decreases s.len(),
{
    if s.len() == 0 {
        0
    } else {
        (if s.last().1 + (*s.last().0).text().len() <= i {
            1nat
        } else {
            0nat
        }) + spent_count(s.drop_last(), i)
    }
}

/// Depth of the node of the top frame; zero for an empty stack.
spec fn top_depth(s: Seq<Span>) -> nat {
    if s.len() == 0 {
        0
    } else {
        (*s.last().0).depth()
    }
}

/// A text document held as a tree of fragments. Appending shares the
/// existing tree rather than copying it.
pub struct Rope {
    head: Option<Arc<Tree>>,
}

impl View for Rope {
    type V = Seq<char>;

    /// The whole document.
    closed spec fn view(&self) -> Seq<char> {
        opt_text(self.head)
    }
}

impl Rope {
    /// Every node's cached weights agree with the text below it.
    pub closed spec fn wf(&self) -> bool {
        opt_wf(self.head)
    }

    /// Number of nodes on the longest path from the root to a leaf; zero for
    /// a rope that holds no tree.
    pub closed spec fn depth(&self) -> nat {
        opt_depth(self.head)
    }

    /// The leaves of the tree that hold at least one character, left to
    /// right.
    pub closed spec fn leaves(&self) -> Seq<Arc<Tree>> {
        nonempty_leaves(self.head)
    }

    /// The root of the tree, if any.
    pub closed spec fn root(&self) -> Option<Arc<Tree>> {
        self.head
    }

    /// Number of leaves in the tree.
    pub closed spec fn leaf_count(&self) -> nat {
        opt_leaf_count(self.head)
    }

    /// Returns a new, empty rope.
    pub fn new() -> (r: Self)
        ensures
            r.wf(),
            r@ == Seq::<char>::empty(),
            r.leaf_count() == 0,
            r.depth() == 0,
    {
        Rope { head: None }
    }

    /// The number of characters in the document.
    pub fn get_length(&self) -> (r: usize)
        requires
            self.wf(),
        ensures
            r as nat == self@.len(),
    {
        match &self.head {
            Some(tree) => tree.get_weight(),
            None => 0,
        }
    }

    /// Adds the given text to the end of the document. The text is split at
    /// its middle character into two leaves under a new branch, which becomes
    /// the right child of a new root whose left child is the previous root.
    pub fn add_string(&mut self, data: String)
        requires
            old(self).wf(),
            old(self)@.len() + data@.len() <= usize::MAX,
        ensures
            final(self).wf(),
            final(self)@ == old(self)@ + data@,
            final(self).leaf_count() == old(self).leaf_count() + 2,
            is_appended_root(old(self).root(), final(self).root(), data@),
    {
        let string_len: usize = data.as_str().unicode_len();
        let split_index: usize = string_len / 2;
        let left_data = data.as_str().substring_char(0, split_index).to_owned();
        let right_data = data.as_str().substring_char(split_index, string_len).to_owned();
        assert(left_data@ + right_data@ =~= data@);

        let new_right_branch = Tree::new_branch(
            Some(Arc::new(Tree::new_leaf(left_data))),
            Some(Arc::new(Tree::new_leaf(right_data))),
        );
        if self.head.is_some() {
            self.head = Tree::new_branch(self.head.take(), new_right_branch);
        } else {
            self.head = new_right_branch;
        }
    }

    /// Builds a rope from the given text by appending it in fragments of
    /// `chunk_len` characters, the last one possibly shorter. A `chunk_len`
    /// of zero appends the text as a single fragment, even an empty one. Each
    /// fragment adds two leaves.
    pub fn from_chunks(text: &str, chunk_len: usize) -> (r: Self)
        ensures
            r.wf(),
            r@ == text@,
            r.leaf_count() == 2 * (if chunk_len == 0 {
                1
            } else {
                fragment_count(text@.len(), chunk_len as nat)
            }),
    {
        let mut rope = Rope::new();
        let n: usize = text.unicode_len();
        if chunk_len == 0 {
            rope.add_string(text.to_owned());
            return rope;
        }
        let mut start: usize = 0;
        while start < n
            invariant
                rope.wf(),
                start <= n,
                chunk_len > 0,
                n == text@.len(),
                rope.leaf_count() + 2 * fragment_count((n - start) as nat, chunk_len as nat) == 2
                    * fragment_count(n as nat, chunk_len as nat),
                rope@ == text@.subrange(0, start as int),
            decreases n - start,
        {
            let end: usize = if n - start > chunk_len {
                start + chunk_len
            } else {
                n
            };
            assert(fragment_count((n - start) as nat, chunk_len as nat) == 1 + fragment_count(
                (n - end) as nat,
                chunk_len as nat,
            ));
            let fragment = text.substring_char(start, end).to_owned();
            assert(text@.subrange(0, start as int) + fragment@ =~= text@.subrange(0, end as int));
            rope.add_string(fragment);
            start = end;
        }
        assert(text@.subrange(0, n as int) =~= text@);
        rope
    }

    /// Returns the whole document.
    pub fn get_text(&self) -> (r: String)
        requires
            self.wf(),
        ensures
            r@ == self@,
    {
        let mut collected_text: String = String::new();
        let mut stack: ArcStack<Tree> = self.collect_leaves();
        loop
            invariant
                collected_text@ + stack_text(stack@) == self@,
                forall|k: int| 0 <= k < stack@.len() ==> is_text_leaf(*#[trigger] stack@[k]),
            ensures
                stack@.len() == 0,
            decreases stack@.len(),
        {
            let current_tree = match stack.peek() {
                Some(t) => t,
                None => break,
            };
            let ghost s = stack@;
            assert(is_text_leaf(*s[s.len() - 1]));
            if let Tree::Leaf(leaf) = &*current_tree {
                collected_text.append(leaf.get_text().as_str());
            } else {
                assert(false);
            }
            stack.pop();
            assert(collected_text@ + stack_text(stack@) =~= self@);
        }
        assert(collected_text@ + stack_text(stack@) =~= collected_text@);
        collected_text
    }

    /// Rebalances the tree: the non-empty leaves are collected in document
    /// order and paired level by level, halving the number of nodes on each
    /// pass, until one root remains. Empty leaves are dropped.
    #[verifier::rlimit(40)]
    pub fn rebuild(&mut self)
        requires
            old(self).wf(),
        ensures
            final(self).wf(),
            final(self)@ == old(self)@,
            final(self).leaves() == old(self).leaves(),
            final(self).leaf_count() == final(self).leaves().len(),
            final(self).leaf_count() <= final(self)@.len(),
            old(self).leaves().len() == 0 ==> final(self).depth() == 0,
            old(self).leaves().len() > 0 ==> pow2(final(self).depth()) < 4 * old(self).leaves().len(),
    {
        let ghost doc = self@;
        let ghost leaves = self.leaves();
        let mut leaf_stack: ArcStack<Tree> = self.collect_leaves();
        let mut level: Vec<Arc<Tree>> = Vec::new();
        loop
            invariant
                nodes_text(level@) + stack_text(leaf_stack@) == doc,
                level@ + leaf_stack@.reverse() == leaves,
                forall|k: int| 0 <= k < level@.len() ==> is_text_leaf(*#[trigger] level@[k]),
                forall|k: int| 0 <= k < leaf_stack@.len() ==> is_text_leaf(*#[trigger] leaf_stack@[k]),
            ensures
                leaf_stack@.len() == 0,
            decreases leaf_stack@.len(),
        {
            let ghost before = level@;
            let ghost s = leaf_stack@;
            match leaf_stack.pop() {
                Some(leaf) => {
                    level.push(leaf);
                    assert(level@.drop_last() =~= before);
                    assert(nodes_text(level@) + stack_text(leaf_stack@) =~= doc);
                    assert(s.reverse() =~= seq![s.last()] + leaf_stack@.reverse());
                    assert(level@ + leaf_stack@.reverse() =~= leaves);
                },
                None => break,
            }
        }
        assert(nodes_text(level@) + stack_text(leaf_stack@) =~= nodes_text(level@));
        assert(level@ + leaf_stack@.reverse() =~= level@);
        proof {
            lemma_text_leaves(level@);
        }
        let ghost total = level@.len();
        let ghost mut height: nat = 0;
        proof {
            lemma2_to64();
        }
        while level.len() > 1
            invariant
                nodes_text(level@) == doc,
                doc.len() <= usize::MAX,
                total <= doc.len(),
                nodes_leaf_count(level@) == total,
                nodes_leaves(level@) == leaves,
                total == leaves.len(),
                level@.len() <= total,
                level@.len() == 0 ==> total == 0,
                forall|k: int|
                    0 <= k < level@.len() ==> (*#[trigger] level@[k]).wf() && (
                    *level@[k]).depth() <= height + 1,
                level@.len() >= 1 ==> (level@.len() - 1) * pow2(height) < total,
                height > 0 ==> pow2((height - 1) as nat) < total,
            decreases level@.len(),
        {
            let mut next: Vec<Arc<Tree>> = Vec::new();
            let mut k: usize = 0;
            while k < level.len()
                invariant
                    k <= level@.len(),
                    k == 2 * next@.len() || (k == level@.len() && k + 1 == 2 * next@.len()),
                    nodes_text(level@) == doc,
                    doc.len() <= usize::MAX,
                    nodes_text(next@) == nodes_text(level@.subrange(0, k as int)),
                    nodes_leaf_count(next@) == nodes_leaf_count(level@.subrange(0, k as int)),
                    nodes_leaves(next@) == nodes_leaves(level@.subrange(0, k as int)),
                    forall|m: int| 0 <= m < level@.len() ==> (*#[trigger] level@[m]).wf() && (
                        *level@[m]).depth() <= height + 1,
                    forall|m: int|
                        0 <= m < next@.len() ==> (*#[trigger] next@[m]).wf() && (
                        *next@[m]).depth() <= height + 2,
                decreases level@.len() - k,
            {
                let ghost before = next@;
                if k + 1 < level.len() {
                    proof {
                        lemma_prefix_step(level@, k as int);
                        lemma_prefix_step(level@, k + 1);
                    }
                    let pair = Tree::new_branch(
                        Some(Arc::clone(&level[k])),
                        Some(Arc::clone(&level[k + 1])),
                    );
                    if let Some(branch) = pair {
                        next.push(branch);
                    }
                    k = k + 2;
                } else {
                    proof {
                        lemma_prefix_step(level@, k as int);
                    }
                    next.push(Arc::clone(&level[k]));
                    k = k + 1;
                }
                assert(next@.drop_last() =~= before);
                assert(nodes_text(next@) =~= nodes_text(level@.subrange(0, k as int)));
                assert(nodes_leaves(next@) =~= nodes_leaves(level@.subrange(0, k as int)));
                assert(forall|m: int| 0 <= m < before.len() ==> next@[m] == before[m]);
            }
            assert(level@.subrange(0, k as int) =~= level@);
            proof {
                let c = level@.len() as int;
                let c2 = next@.len() as int;
                let p = pow2(height) as int;
                lemma_pow2_pos(height);
                lemma_pow2_unfold(height + 1);
                assert(2 * (c2 - 1) <= c - 1);
                assert((c2 - 1) * (2 * p) <= (c - 1) * p) by (nonlinear_arith)
                    requires
                        2 * (c2 - 1) <= c - 1,
                        p > 0,
                        c2 >= 1,
                ;
                assert(p <= (c - 1) * p) by (nonlinear_arith)
                    requires
                        c >= 2,
                        p > 0,
                ;
            }
            level = next;
            proof {
                height = height + 1;
            }
        }
        if level.len() == 0 {
            self.head = None;
            assert(self.leaves() =~= leaves);
        } else {
            proof {
                let one = level@;
                assert(one.len() == 1);
                assert(one.last() == one[0]);
                assert(one.drop_last() =~= Seq::<Arc<Tree>>::empty());
                assert(nodes_text(one.drop_last()) == Seq::<char>::empty());
                assert(nodes_leaf_count(one.drop_last()) == 0);
                assert(nodes_leaves(one.drop_last()) == Seq::<Arc<Tree>>::empty());
                assert(nodes_leaves(one) =~= nonempty_leaves(Some(one[0])));
                assert(nodes_text(one) =~= (*one[0]).text());
                let d = opt_depth(Some(one[0]));
                if d < height + 1 {
                    lemma_pow2_strictly_increases(d, height + 1);
                }
                if height > 0 {
                    lemma_pow2_unfold(height + 1);
                    lemma_pow2_unfold(height);
                } else {
                    lemma2_to64();
                }
            }
            self.head = Some(Arc::clone(&level[0]));
        }
    }

    /// Returns the character at the given offset, or `None` where the offset
    /// is not below the document length.
    pub fn char_at(&self, source_index: usize) -> (r: Option<char>)
        requires
            self.wf(),
        ensures
            r == (if source_index < self@.len() {
                Some(self@[source_index as int])
            } else {
                None
            }),
    {
        let mut current_tree: Arc<Tree> = match &self.head {
            Some(tree) => Arc::clone(tree),
            None => return None,
        };
        if source_index >= current_tree.get_weight() {
            return None;
        }
        let mut char_index: usize = source_index;
        loop
            invariant
                (*current_tree).wf(),
                char_index < (*current_tree).text().len(),
                (*current_tree).text()[char_index as int] == self@[source_index as int],
                source_index < self@.len(),
            decreases (*current_tree).depth(),
        {
            let next_tree = match &*current_tree {
                Tree::Branch(branch) => {
                    if char_index >= branch.get_left_weight() {
                        match branch.get_right() {
                            Some(right_sub_branch) => {
                                char_index = char_index - branch.get_left_weight();
                                right_sub_branch
                            },
                            None => return None,
                        }
                    } else {
                        match branch.get_left() {
                            Some(left_sub_branch) => left_sub_branch,
                            None => return None,
                        }
                    }
                },
                Tree::Leaf(leaf) => {
                    return Some(leaf.get_text().as_str().get_char(char_index));
                },
            };
            current_tree = next_tree;
        }
    }

    /// Returns the characters from offset `i` up to, not including, offset
    /// `j`. `None` where `i > j`, where `j` is past the end, or where the
    /// document is empty.
    pub fn substring(&self, i: usize, j: usize) -> (r: Option<String>)
        requires
            self.wf(),
        ensures
            r is Some <==> (i <= j && j <= self@.len() && self@.len() > 0),
            r is Some ==> r->0@ == self@.subrange(i as int, j as int),
    {
        let ghost doc = self@;
        let mut output_string: String = String::new();
        if i > j {
            return None;
        }
        let mut stack: Vec<Span> = Vec::new();
        let rope_length: usize;
        match &self.head {
            Some(tree) => {
                stack.push((Arc::clone(tree), 0));
                rope_length = tree.get_weight();
            },
            None => return None,
        }
        if j > rope_length || rope_length == 0 {
            return None;
        }
        let ghost start = i;
        let mut i: usize = i;
        assert(output_string@ =~= doc.subrange(i as int, i as int));
        assert(doc.subrange(0, doc.len() as int) =~= doc);
        loop
            invariant
                doc == self@,
                start <= i <= j <= doc.len(),
                output_string@ == doc.subrange(start as int, i as int),
                forall|k: int|
                    0 <= k < stack@.len() ==> {
                        let (t, o) = #[trigger] stack@[k];
                        &&& (*t).wf()
                        &&& o <= i
                        &&& o + (*t).text().len() <= doc.len()
                        &&& doc.subrange(o as int, o + (*t).text().len()) == (*t).text()
                    },
                forall|k: int| 0 <= k < stack@.len() - 1 ==> (*(#[trigger] stack@[k]).0) is Branch,
                stack@.len() > 0 && (*stack@.last().0) is Leaf && i < j ==> i < stack@.last().1 + (
                *stack@.last().0).text().len(),
                stack@.len() > 0 ==> stack@[0].1 == 0 && (*stack@[0].0).text() == doc,
                stack@.len() == 0 ==> i == j,
            ensures
                i == j,
                output_string@ == doc.subrange(start as int, j as int),
            decreases j - i, spent_count(stack@, i as int), top_depth(stack@),
        {
            if i >= j {
                break;
            }
            let n = stack.len();
            if n == 0 {
                break;
            }
            let tree: Arc<Tree> = Arc::clone(&stack[n - 1].0);
            let offset: usize = stack[n - 1].1;
            let ghost s = stack@;
            assert(s[n - 1] == (tree, offset));
            match &*tree {
                Tree::Branch(branch) => {
                    let ghost left_text = opt_text(branch.left);
                    let ghost right_text = opt_text(branch.right);
                    let ghost whole = doc.subrange(offset as int, offset + left_text.len() + right_text.len());
                    proof {
                        assert(whole == left_text + right_text);
                        assert(doc.subrange(offset as int, offset + left_text.len()) =~= whole.subrange(
                            0,
                            left_text.len() as int,
                        ));
                        assert(doc.subrange(
                            offset + left_text.len(),
                            offset + left_text.len() + right_text.len(),
                        ) =~= whole.subrange(left_text.len() as int, whole.len() as int));
                        assert((left_text + right_text).subrange(0, left_text.len() as int)
                            =~= left_text);
                        assert((left_text + right_text).subrange(
                            left_text.len() as int,
                            whole.len() as int,
                        ) =~= right_text);
                    }
                    let left_weight = branch.get_left_weight();
                    let rel = i - offset;
                    if rel < left_weight {
                        match branch.get_left() {
                            Some(nxt_bra) => {
                                stack.push((nxt_bra, offset));
                                assert(stack@.drop_last() =~= s);
                                assert(spent_count(stack@, i as int) == spent_count(s, i as int));
                            },
                            None => return None,
                        }
                    } else if rel < branch.get_weight() {
                        match branch.get_right() {
                            Some(nxt_bra) => {
                                stack.push((nxt_bra, offset + left_weight));
                                assert(stack@.drop_last() =~= s);
                                assert(spent_count(stack@, i as int) == spent_count(s, i as int));
                            },
                            None => return None,
                        }
                    } else {
                        stack.pop();
                        assert(n == 1 ==> s[0] == s[n - 1]);
                        assert(stack@ =~= s.drop_last());
                        assert(spent_count(s, i as int) == 1 + spent_count(stack@, i as int));
                    }
                },
                Tree::Leaf(leaf) => {
                    assert(doc.subrange(offset as int, offset + leaf@.len()) == leaf@);
                    let leaf_length = leaf.get_length();
                    let end: usize = if j - offset < leaf_length {
                        j - offset
                    } else {
                        leaf_length
                    };
                    let text = leaf.get_text();
                    output_string.append(text.as_str().substring_char(i - offset, end));
                    proof {
                        let piece = leaf@.subrange(i - offset, end as int);
                        assert(piece =~= doc.subrange(i as int, offset + end));
                        assert(doc.subrange(start as int, i as int) + piece =~= doc.subrange(
                            start as int,
                            offset + end,
                        ));
                    }
                    i = offset + end;
                    stack.pop();
                    assert(n == 1 ==> s[0] == s[n - 1]);
                    assert(stack@ =~= s.drop_last());
                    assert(forall|k: int| 0 <= k < stack@.len() ==> stack@[k] == s[k]);
                },
            }
        }
        Some(output_string)
    }

    /// Walks the tree depth first and returns the largest number of frames
    /// its stack held: the number of nodes on the longest root-to-leaf path.
    pub fn get_depth(&self) -> (r: usize)
        requires
            self.wf(),
        ensures
            r == self.depth(),
    {
        let mut deepest: usize = 0;
        let mut tree_stack: TreeDFSStack = TreeDFSStack::new();
        if let Some(tree) = &self.head {
            tree_stack.push(Arc::clone(tree), (false, false));
            deepest = 1;
            proof {
                assert(tree_stack@.drop_last() =~= Seq::<Frame>::empty());
                assert(reach_all(Seq::<Frame>::empty()) == 0);
                assert((**tree).depth() >= 1);
                assert(frame_reach(0, tree_stack@.last()) == (**tree).depth());
                assert(reach_all(tree_stack@) == frame_reach(0, tree_stack@.last()));
            }
        }
        loop
            invariant
                tree_stack.wf(),
                deepest >= tree_stack@.len(),
                vstd::math::max(deepest as int, reach_all(tree_stack@)) == self.depth(),
                forall|k: int|
                    0 <= k < tree_stack@.len() ==> (#[trigger] tree_stack@[k]).1.1 ==> tree_stack@[k].1.0,
            ensures
                tree_stack@.len() == 0,
            decreases cost_all(tree_stack@),
        {
            let this_tree = match tree_stack.peek_item() {
                Some(t) => t,
                None => break,
            };
            let ghost s = tree_stack@;
            let ghost n = s.len();
            assert(s[n - 1].1.1 ==> s[n - 1].1.0);
            assert(reach_all(s) == vstd::math::max(reach_all(s.drop_last()), frame_reach(n - 1, s[n - 1])));
            assert(cost_all(s) == frame_cost(s[n - 1]) + cost_all(s.drop_last()));
            match &*this_tree {
                Tree::Branch(branch) => {
                    if !tree_stack.get_left_visited() {
                        tree_stack.set_left_visited(true);
                        let ghost s1 = tree_stack@;
                        assert(s1.drop_last() =~= s.drop_last());
                        assert(reach_all(s1) == vstd::math::max(reach_all(s.drop_last()), frame_reach(n - 1, s1[n - 1])));
                        assert(cost_all(s1) == frame_cost(s1[n - 1]) + cost_all(s.drop_last()));
                        let left = branch.get_left();
                        proof { lemma_opt_frame(left); }
                        if let Some(left_sub_branch) = left {
                            tree_stack.push(left_sub_branch, (false, false));
                            assert(tree_stack@.drop_last() =~= s1);
                            assert(cost_all(tree_stack@) == opt_cost(branch.left) + cost_all(s1));
                            assert(reach_all(tree_stack@) == vstd::math::max(
                                reach_all(s1),
                                frame_reach(n as int, tree_stack@[n as int]),
                            ));
                            assert(frame_reach(n as int, tree_stack@[n as int]) == n as int + opt_depth(branch.left));
                            if deepest < tree_stack.len() {
                                deepest = tree_stack.len();
                            }
                        }
                    } else if !tree_stack.get_right_visited() {
                        tree_stack.set_right_visited(true);
                        let ghost s1 = tree_stack@;
                        assert(s1.drop_last() =~= s.drop_last());
                        assert(reach_all(s1) == vstd::math::max(reach_all(s.drop_last()), frame_reach(n - 1, s1[n - 1])));
                        assert(cost_all(s1) == frame_cost(s1[n - 1]) + cost_all(s.drop_last()));
                        let right = branch.get_right();
                        proof { lemma_opt_frame(right); }
                        if let Some(right_sub_branch) = right {
                            tree_stack.push(right_sub_branch, (false, false));
                            assert(tree_stack@.drop_last() =~= s1);
                            assert(cost_all(tree_stack@) == opt_cost(branch.right) + cost_all(s1));
                            assert(reach_all(tree_stack@) == vstd::math::max(
                                reach_all(s1),
                                frame_reach(n as int, tree_stack@[n as int]),
                            ));
                            assert(frame_reach(n as int, tree_stack@[n as int]) == n as int + opt_depth(branch.right));
                            if deepest < tree_stack.len() {
                                deepest = tree_stack.len();
                            }
                        }
                    } else {
                        tree_stack.pop();
                        assert(tree_stack@ =~= s.drop_last());
                    }
                },
                Tree::Leaf(_) => {
                    tree_stack.pop();
                    assert(tree_stack@ =~= s.drop_last());
                },
            }
        }
        deepest
    }

    /// Walks the tree depth first and returns its non-empty leaves on a stack
    /// whose top is the first leaf of the document.
    fn collect_leaves(&self) -> (r: ArcStack<Tree>)
        requires
            self.wf(),
        ensures
            r@.reverse() == nonempty_leaves(self.head),
            stack_text(r@) == self@,
            forall|k: int| 0 <= k < r@.len() ==> is_text_leaf(*#[trigger] r@[k]),
    {
        let mut collected_leaves: ArcStack<Tree> = ArcStack::new();
        let mut tree_stack: TreeDFSStack = TreeDFSStack::new();

        if let Some(tree) = &self.head {
            tree_stack.push(Arc::clone(tree), (false, false));
            proof {
                lemma_fresh_frame(*tree);
                assert(tree_stack@.drop_last() =~= Seq::<Frame>::empty());
                assert(pending_all(tree_stack@) == pending(tree_stack@.last()) + pending_all(
                    tree_stack@.drop_last(),
                ));
                assert(nodes_text(collected_leaves@) == Seq::<char>::empty());
                assert(nodes_text(collected_leaves@) + pending_all(tree_stack@) =~= self@);
                assert(pending_leaves_all(tree_stack@) == pending_leaves(tree_stack@.last())
                    + pending_leaves_all(tree_stack@.drop_last()));
                assert(collected_leaves@ + pending_leaves_all(tree_stack@) =~= nonempty_leaves(
                    self.head,
                ));
            }
        } else {
            assert(nodes_text(collected_leaves@) + pending_all(tree_stack@) =~= self@);
            assert(collected_leaves@ + pending_leaves_all(tree_stack@) =~= nonempty_leaves(
                self.head,
            ));
        }
        loop
            invariant
                tree_stack.wf(),
                nodes_text(collected_leaves@) + pending_all(tree_stack@) == self@,
                collected_leaves@ + pending_leaves_all(tree_stack@) == nonempty_leaves(self.head),
                forall|k: int| 0 <= k < tree_stack@.len() ==> (*(#[trigger] tree_stack@[k]).0).wf(),
                forall|k: int|
                    0 <= k < tree_stack@.len() ==> (#[trigger] tree_stack@[k]).1.1 ==> tree_stack@[k].1.0,
                forall|k: int|
                    0 <= k < collected_leaves@.len() ==> is_text_leaf(*#[trigger] collected_leaves@[k]),
            ensures
                tree_stack@.len() == 0,
            decreases cost_all(tree_stack@),
        {
            let this_tree = match tree_stack.peek_item() {
                Some(t) => t,
                None => break,
            };
            let ghost s = tree_stack@;
            let ghost n = s.len();
            let ghost emitted = collected_leaves@;
            assert(s[n - 1].1.1 ==> s[n - 1].1.0);
            assert((*s[n - 1].0).wf());
            match &*this_tree {
                Tree::Branch(branch) => {
                    if !tree_stack.get_left_visited() {
                        tree_stack.set_left_visited(true);
                        let ghost s1 = tree_stack@;
                        assert(s1.drop_last() =~= s.drop_last());
                        let left = branch.get_left();
                        proof { lemma_opt_frame(left); }
                        assert(pending_all(s) == opt_text(branch.left) + opt_text(branch.right)
                            + pending_all(s.drop_last()));
                        assert(pending_all(s1) == opt_text(branch.right) + pending_all(s.drop_last()));
                        assert(pending_leaves_all(s) == nonempty_leaves(branch.left) + nonempty_leaves(
                            branch.right,
                        ) + pending_leaves_all(s.drop_last()));
                        assert(pending_leaves_all(s1) == nonempty_leaves(branch.right)
                            + pending_leaves_all(s.drop_last()));
                        assert(cost_all(s) == 3 + opt_cost(branch.left) + opt_cost(branch.right)
                            + cost_all(s.drop_last()));
                        assert(cost_all(s1) == 2 + opt_cost(branch.right) + cost_all(s.drop_last()));
                        if let Some(left_sub_branch) = left {
                            tree_stack.push(left_sub_branch, (false, false));
                            assert(tree_stack@.drop_last() =~= s1);
                            assert(pending_all(tree_stack@) == opt_text(branch.left) + pending_all(s1));
                            assert(pending_leaves_all(tree_stack@) == nonempty_leaves(branch.left)
                                + pending_leaves_all(s1));
                            assert(cost_all(tree_stack@) == opt_cost(branch.left) + cost_all(s1));
                        }
                        assert(nodes_text(emitted) + pending_all(tree_stack@) =~= self@);
                        assert(emitted + pending_leaves_all(tree_stack@) =~= nonempty_leaves(self.head));
                    } else if !tree_stack.get_right_visited() {
                        tree_stack.set_right_visited(true);
                        let ghost s1 = tree_stack@;
                        assert(s1.drop_last() =~= s.drop_last());
                        let right = branch.get_right();
                        proof { lemma_opt_frame(right); }
                        assert(pending_all(s) == opt_text(branch.right) + pending_all(s.drop_last()));
                        assert(pending_all(s1) == pending_all(s.drop_last()));
                        assert(pending_leaves_all(s) == nonempty_leaves(branch.right)
                            + pending_leaves_all(s.drop_last()));
                        assert(pending_leaves_all(s1) == pending_leaves_all(s.drop_last()));
                        assert(cost_all(s) == 2 + opt_cost(branch.right) + cost_all(s.drop_last()));
                        assert(cost_all(s1) == 1 + cost_all(s.drop_last()));
                        if let Some(right_sub_branch) = right {
                            tree_stack.push(right_sub_branch, (false, false));
                            assert(tree_stack@.drop_last() =~= s1);
                            assert(pending_all(tree_stack@) == opt_text(branch.right) + pending_all(s1));
                            assert(pending_leaves_all(tree_stack@) == nonempty_leaves(branch.right)
                                + pending_leaves_all(s1));
                            assert(cost_all(tree_stack@) == opt_cost(branch.right) + cost_all(s1));
                        }
                        assert(nodes_text(emitted) + pending_all(tree_stack@) =~= self@);
                        assert(emitted + pending_leaves_all(tree_stack@) =~= nonempty_leaves(self.head));
                    } else {
                        tree_stack.pop();
                        assert(nodes_text(emitted) + pending_all(tree_stack@) =~= self@);
                        assert(emitted + pending_leaves_all(tree_stack@) =~= nonempty_leaves(self.head));
                    }
                },
                Tree::Leaf(leaf) => {
                    if leaf.get_length() > 0 {
                        collected_leaves.push(Arc::clone(&this_tree));
                        assert(collected_leaves@.drop_last() =~= emitted);
                    } else {
                        assert(leaf@ =~= Seq::<char>::empty());
                    }
                    tree_stack.pop();
                    assert(tree_stack@ =~= s.drop_last());
                    assert(pending_leaves_all(s) == pending_leaves(s[n - 1]) + pending_leaves_all(
                        s.drop_last(),
                    ));
                    assert(nodes_text(collected_leaves@) + pending_all(tree_stack@) =~= self@);
                    assert(collected_leaves@ + pending_leaves_all(tree_stack@) =~= nonempty_leaves(
                        self.head,
                    ));
                },
            }
        }
        let ghost in_order = collected_leaves@;
        collected_leaves.reverse();
        proof {
            assert(collected_leaves@.reverse() =~= in_order);
            assert(in_order + pending_leaves_all(tree_stack@) =~= in_order);
            lemma_stack_text_reverse(collected_leaves@);
            assert(pending_all(tree_stack@) =~= Seq::<char>::empty());
            assert(nodes_text(in_order) + Seq::<char>::empty() =~= nodes_text(in_order));
            assert forall|k: int| 0 <= k < collected_leaves@.len() implies is_text_leaf(
                *#[trigger] collected_leaves@[k],
            ) by {
                assert(collected_leaves@[k] == in_order[in_order.len() - 1 - k]);
            }
        }
        collected_leaves
    }
}

/// The text produced by a run of operations on a new rope: `Some(f)` appends
/// the fragment `f`, `None` rebuilds.
pub open spec fn appended(ops: Seq<Option<Seq<char>>>) -> Seq<char>
    decreases ops.len(),
{
    if ops.len() == 0 {
        Seq::empty()
    } else {
        match ops.last() {
            Some(f) => appended(ops.drop_last()) + f,
            None => appended(ops.drop_last()),
        }
    }
}

/// Whatever mix of appends and rebuilds a new rope goes through, its text is
/// the concatenation of the appended fragments in append order. `ropes[k]` is
/// the rope after the first `k` operations, each related to the one before as
/// `add_string` and `rebuild` state it.
pub proof fn lemma_text_is_concatenation(ops: Seq<Option<Seq<char>>>, ropes: Seq<Rope>)
    requires
        ropes.len() == ops.len() + 1,
        ropes[0]@ == Seq::<char>::empty(),
        forall|k: int|
            0 <= k < ops.len() ==> ropes[k + 1]@ == match #[trigger] ops[k] {
                Some(f) => ropes[k]@ + f,
                None => ropes[k]@,
            },
    ensures
        ropes.last()@ == appended(ops),
    decreases ops.len(),
{
    if ops.len() > 0 {
        let k = ops.len() - 1;
        assert(ops[k] == ops.last());
        lemma_text_is_concatenation(ops.drop_last(), ropes.drop_last());
    }
}

/// The length reported for a rope is the number of characters of its text.
pub proof fn lemma_length_is_text_length(rope: Rope, length: usize, text: Seq<char>)
    requires
        rope.wf(),
        length as nat == rope@.len(),
        text == rope@,
    ensures
        length as nat == text.len(),
{
}

/// For every offset below the length, the character at that offset is the
/// character of the text there.
pub proof fn lemma_char_at_matches_text(rope: Rope, text: Seq<char>, k: usize, c: Option<char>)
    requires
        rope.wf(),
        text == rope@,
        k < rope@.len(),
        c == (if k < rope@.len() {
            Some(rope@[k as int])
        } else {
            None
        }),
    ensures
        c == Some(text[k as int]),
{
}

/// For every range `[i, j)` within a non-empty text, the extracted range is
/// that slice of the text.
pub proof fn lemma_substring_matches_text(
    rope: Rope,
    text: Seq<char>,
    i: usize,
    j: usize,
    r: Option<Seq<char>>,
)
    requires
        rope.wf(),
        text == rope@,
        i <= j <= rope@.len(),
        rope@.len() > 0,
        r is Some <==> (i <= j && j <= rope@.len() && rope@.len() > 0),
        r is Some ==> r->0 == rope@.subrange(i as int, j as int),
    ensures
        r == Some(text.subrange(i as int, j as int)),
{
}

/// On an empty rope every character lookup and every range extraction comes
/// back absent.
pub proof fn lemma_empty_rope_queries_absent(
    rope: Rope,
    k: usize,
    c: Option<char>,
    i: usize,
    j: usize,
    r: Option<Seq<char>>,
)
    requires
        rope.wf(),
        rope@.len() == 0,
        c == (if k < rope@.len() {
            Some(rope@[k as int])
        } else {
            None
        }),
        r is Some <==> (i <= j && j <= rope@.len() && rope@.len() > 0),
    ensures
        c is None,
        r is None,
{
}

} // verus!
