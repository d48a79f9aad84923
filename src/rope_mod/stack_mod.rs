use std::sync::Arc;
use vstd::prelude::*;

use super::tree_mod::Tree;

verus! {

/// A last-in first-out stack of shared links.
pub struct ArcStack<T> {
    head: Vec<Arc<T>>,
}

impl<T> View for ArcStack<T> {
    type V = Seq<Arc<T>>;

    /// The links from the bottom of the stack to its top.
    closed spec fn view(&self) -> Seq<Arc<T>> {
        self.head@
    }
}

impl<T> ArcStack<T> {
    pub fn new() -> (r: Self)
        ensures
            r@ == Seq::<Arc<T>>::empty(),
    {
        ArcStack { head: Vec::new() }
    }

    pub fn push(&mut self, next: Arc<T>)
        ensures
            final(self)@ == old(self)@.push(next),
    {
        self.head.push(next);
    }

    pub fn pop(&mut self) -> (r: Option<Arc<T>>)
        ensures
            old(self)@.len() == 0 ==> r is None && final(self)@ == old(self)@,
            old(self)@.len() > 0 ==> r == Some(old(self)@.last()) && final(self)@
                == old(self)@.drop_last(),
    {
        self.head.pop()
    }

    /// Pops the top link and then the one below it, each absent where the
    /// stack has run out.
    pub fn pop_two(&mut self) -> (r: (Option<Arc<T>>, Option<Arc<T>>))
        ensures
            ({
                let n = old(self)@.len();
                &&& r.0 == (if n >= 1 { Some(old(self)@[n - 1]) } else { None })
                &&& r.1 == (if n >= 2 { Some(old(self)@[n - 2]) } else { None })
                &&& final(self)@ == old(self)@.subrange(0, if n >= 2 { n - 2 } else { 0 })
            }),
    {
        let last = self.head.pop();
        let second_last = self.head.pop();
        proof {
            let n = old(self)@.len();
            if n >= 2 {
                assert(old(self)@.drop_last().drop_last() =~= old(self)@.subrange(0, n - 2));
            } else {
                assert(self@ =~= old(self)@.subrange(0, 0));
            }
        }
        (last, second_last)
    }

    /// A new link to the top item, if any.
    pub fn peek(&self) -> (r: Option<Arc<T>>)
        ensures
            r == (if self@.len() > 0 { Some(self@.last()) } else { None }),
    {
        let n = self.head.len();
        if n > 0 {
            Some(Arc::clone(&self.head[n - 1]))
        } else {
            None
        }
    }

    /// New links to the second item from the top and to the top item, each
    /// absent where the stack is too short.
    pub fn peek_two(&mut self) -> (r: (Option<Arc<T>>, Option<Arc<T>>))
        ensures
            final(self)@ == old(self)@,
            ({
                let n = old(self)@.len();
                &&& r.0 == (if n >= 2 { Some(old(self)@[n - 2]) } else { None })
                &&& r.1 == (if n >= 1 { Some(old(self)@[n - 1]) } else { None })
            }),
    {
        let n = self.head.len();
        let left = if n >= 2 {
            Some(Arc::clone(&self.head[n - 2]))
        } else {
            None
        };
        let right = if n >= 1 {
            Some(Arc::clone(&self.head[n - 1]))
        } else {
            None
        };
        (left, right)
    }

    /// Turns the stack upside down, so that the bottom item comes out first.
    pub fn reverse(&mut self)
        ensures
            final(self)@ == old(self)@.reverse(),
    {
        let mut reversed: Vec<Arc<T>> = Vec::new();
        while self.head.len() > 0
            invariant
                old(self)@ == self.head@ + reversed@.reverse(),
            decreases self.head.len(),
        {
            let ghost before = self.head@;
            let item = self.head.pop().unwrap();
            proof {
                assert(before == self.head@.push(item));
                assert(reversed@.push(item).reverse() =~= seq![item] + reversed@.reverse());
                assert(old(self)@ =~= self.head@ + reversed@.push(item).reverse());
            }
            reversed.push(item);
        }
        proof {
            assert(self.head@ + reversed@.reverse() =~= reversed@.reverse());
            assert(reversed@.reverse().reverse() =~= reversed@);
        }
        self.head = reversed;
    }
}

/// The explicit stack of a depth-first walk: each frame holds a link to a
/// node and whether its left and right subtrees have been entered.
pub struct TreeDFSStack {
    head: Vec<Arc<Tree>>,
    state: Vec<(bool, bool)>,
}

impl View for TreeDFSStack {
    type V = Seq<(Arc<Tree>, (bool, bool))>;

    /// The frames from the bottom of the stack to its top.
    closed spec fn view(&self) -> Seq<(Arc<Tree>, (bool, bool))> {
        Seq::new(self.head@.len(), |i: int| (self.head@[i], self.state@[i]))
    }
}

impl TreeDFSStack {
    /// The node links and the visited flags are kept in step.
    pub closed spec fn wf(&self) -> bool {
        self.head@.len() == self.state@.len()
    }

    pub fn new() -> (r: Self)
        ensures
            r.wf(),
            r@ == Seq::<(Arc<Tree>, (bool, bool))>::empty(),
    {
        TreeDFSStack { head: Vec::new(), state: Vec::new() }
    }

    pub fn push(&mut self, next: Arc<Tree>, state: (bool, bool))
        requires
            old(self).wf(),
        ensures
            final(self).wf(),
            final(self)@ == old(self)@.push((next, state)),
    {
        self.head.push(next);
        self.state.push(state);
        assert(self@ =~= old(self)@.push((next, state)));
    }

    pub fn pop(&mut self) -> (r: Option<Arc<Tree>>)
        requires
            old(self).wf(),
        ensures
            final(self).wf(),
            old(self)@.len() == 0 ==> r is None && final(self)@ == old(self)@,
            old(self)@.len() > 0 ==> r == Some(old(self)@.last().0) && final(self)@
                == old(self)@.drop_last(),
    {
        self.state.pop();
        let r = self.head.pop();
        assert(old(self)@.len() > 0 ==> self@ =~= old(self)@.drop_last());
        assert(old(self)@.len() == 0 ==> self@ =~= old(self)@);
        r
    }

    /// Number of frames on the stack.
    pub fn len(&self) -> (r: usize)
        requires
            self.wf(),
        ensures
            r == self@.len(),
    {
        self.head.len()
    }

    /// A new link to the node of the top frame, if any.
    pub fn peek_item(&self) -> (r: Option<Arc<Tree>>)
        requires
            self.wf(),
        ensures
            r == (if self@.len() > 0 { Some(self@.last().0) } else { None }),
    {
        let n = self.head.len();
        if n > 0 {
            Some(Arc::clone(&self.head[n - 1]))
        } else {
            None
        }
    }

    /// Sets the left flag of the top frame; an empty stack is left as it is.
    pub fn set_left_visited(&mut self, next_left_state: bool)
        requires
            old(self).wf(),
        ensures
            final(self).wf(),
            old(self)@.len() == 0 ==> final(self)@ == old(self)@,
            old(self)@.len() > 0 ==> final(self)@ == old(self)@.update(
                old(self)@.len() - 1,
                (old(self)@.last().0, (next_left_state, old(self)@.last().1.1)),
            ),
    {
        let n = self.state.len();
        if n > 0 {
            let right = self.state[n - 1].1;
            self.state.pop();
            self.state.push((next_left_state, right));
            assert(self@ =~= old(self)@.update(
                old(self)@.len() - 1,
                (old(self)@.last().0, (next_left_state, old(self)@.last().1.1)),
            ));
        }
    }

    /// Sets the right flag of the top frame; an empty stack is left as it is.
    pub fn set_right_visited(&mut self, next_right_state: bool)
        requires
            old(self).wf(),
        ensures
            final(self).wf(),
            old(self)@.len() == 0 ==> final(self)@ == old(self)@,
            old(self)@.len() > 0 ==> final(self)@ == old(self)@.update(
                old(self)@.len() - 1,
                (old(self)@.last().0, (old(self)@.last().1.0, next_right_state)),
            ),
    {
        let n = self.state.len();
        if n > 0 {
            let left = self.state[n - 1].0;
            self.state.pop();
            self.state.push((left, next_right_state));
            assert(self@ =~= old(self)@.update(
                old(self)@.len() - 1,
                (old(self)@.last().0, (old(self)@.last().1.0, next_right_state)),
            ));
        }
    }

    /// The left flag of the top frame; false on an empty stack.
    pub fn get_left_visited(&self) -> (r: bool)
        requires
            self.wf(),
        ensures
            r == (self@.len() > 0 && self@.last().1.0),
    {
        let n = self.state.len();
        if n > 0 {
            self.state[n - 1].0
        } else {
            false
        }
    }

    /// The right flag of the top frame; false on an empty stack.
    pub fn get_right_visited(&self) -> (r: bool)
        requires
            self.wf(),
        ensures
            r == (self@.len() > 0 && self@.last().1.1),
    {
        let n = self.state.len();
        if n > 0 {
            self.state[n - 1].1
        } else {
            false
        }
    }
}

} // verus!
