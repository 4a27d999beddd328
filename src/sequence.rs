//! Composites with "and" semantics: they tick their children in order as
//! long as the children succeed.
use vstd::prelude::*;

use crate::status::Status;
use crate::node::{
    Kind, Leaf, Node, all_initial, all_wf, first_other, lemma_first_other_here,
    lemma_first_other_skip, reset_between, same_between, statuses, ticked_between,
};

verus! {

/// Ticks its children in order while they succeed, resuming at the child
/// that was running on the previous tick. A child that has succeeded is not
/// ticked again until the node is reset. Once a child has failed, the node
/// keeps returning `Failed` without ticking any child until it is reset.
pub struct Sequence<L> {
    children: Vec<Node<L>>,
    next_child: usize,
    finished: bool,
}

/// Ticks its children in order while they succeed, starting again from the
/// first child on every tick. The children after the one that stopped the
/// tick are reset.
pub struct ActiveSequence<L> {
    children: Vec<Node<L>>,
}

impl<L> Sequence<L> {
    /// Each child is smaller than the node that owns it.
    pub proof fn lemma_children_decrease(self)
        ensures
            decreases_to!(self => self.children()),
            forall|i: int|
                0 <= i < self.children().len() ==> decreases_to!(self => #[trigger] self.children()[i]),
    {
        assert forall|i: int| 0 <= i < self.children().len() implies decreases_to!(self => #[trigger] self.children()[i]) by {
            assert(decreases_to!(self.children => self.children[i]));
        }
        assert(decreases_to!(self.children => self.children@));
    }

    /// The children, in order.
    pub closed spec fn children(&self) -> Seq<Node<L>> {
        self.children@
    }

    /// The index of the next child to tick.
    pub closed spec fn cursor(&self) -> int {
        self.next_child as int
    }

    /// A child failed, which decided the result.
    pub closed spec fn finished(&self) -> bool {
        self.finished
    }

    /// The invariant of this node's own fields and of its subtrees; a
    /// finished node's cursor rests on the child that failed.
    pub open spec fn wf(&self) -> bool
        decreases self,
    {
        &&& 0 <= self.cursor() <= self.children().len()
        &&& (self.finished() ==> self.cursor() < self.children().len()
            && self.children()[self.cursor()].status() == Status::Failed)
        &&& forall|i: int| 0 <= i < self.children().len() ==> (#[trigger] self.children()[i]).wf()
    }

    /// Nothing below this node was ticked since it was built or reset.
    pub open spec fn is_initial(&self) -> bool
        decreases self,
    {
        &&& self.cursor() == 0
        &&& !self.finished()
        &&& forall|i: int|
            0 <= i < self.children().len() ==> (#[trigger] self.children()[i]).is_initial()
    }

    /// `b` is `a` after a reset: every child is reset.
    pub open spec fn reset_rel(a: Self, b: Self) -> bool
        decreases a,
    {
        &&& b.cursor() == 0
        &&& !b.finished()
        &&& reset_between(a.children(), b.children(), 0, a.children().len() as int)
    }

    /// Once a child has failed, the result stays `Failed` and nothing
    /// changes. Otherwise the children from the cursor on are ticked while
    /// they succeed; the first other status is the result, the cursor moves
    /// past the children that succeeded, and a failure finishes the node.
    pub open spec fn tick_rel(a: Self, b: Self, r: Status) -> bool
        decreases a,
    {
        if a.finished() {
            r == Status::Failed && b == a
        } else {
            let n = a.children().len() as int;
            let k = first_other(statuses(b.children()), a.cursor(), Status::Succeeded);
            let e = if k < n { k + 1 } else { n };
            &&& 0 <= a.cursor() <= n
            &&& r == (if k < n { b.children()[k].status() } else { Status::Succeeded })
            &&& b.cursor() == k
            &&& b.finished() == (r == Status::Failed)
            &&& same_between(a.children(), b.children(), 0, a.cursor())
            &&& ticked_between(a.children(), b.children(), a.cursor(), e)
            &&& same_between(a.children(), b.children(), e, n)
        }
    }
}

impl<L: Leaf> Sequence<L> {
    /// The children, in order.
    pub(crate) fn children_slice(&self) -> (r: &[Node<L>])
        ensures
            r@ == self.children(),
    {
        self.children.as_slice()
    }

    /// Creates a new `Sequence` node from a vector of nodes.
    pub fn new(children: Vec<Node<L>>) -> (n: Node<L>)
        requires
            all_wf(children@),
        ensures
            n.wf(),
            n.status() == Status::Initialized,
            n.ticks() == 0,
            n.kind() is Sequence,
            n.kind()->Sequence_0.children() == children@,
            n.kind()->Sequence_0.cursor() == 0,
            !n.kind()->Sequence_0.finished(),
            n.is_initial() <==> all_initial(children@),
    {
        let ghost v = children@;
        let n = Node::from_kind(Kind::Sequence(Sequence { children, next_child: 0, finished: false }));
        assert(n.is_initial() ==> all_initial(v)) by {
            if n.is_initial() {
                assert forall|i: int| 0 <= i < v.len() implies (#[trigger] v[i]).is_initial() by {
                    assert(n.kind()->Sequence_0.children()[i] == v[i]);
                }
            }
        }
        n
    }

    /// Ticks the children as the composition rule says; see `tick_rel`.
    pub(crate) fn tick(&mut self, world: &L::World) -> (r: Status)
        requires
            old(self).wf(),
        ensures
            final(self).wf(),
            Sequence::tick_rel(*old(self), *final(self), r),
        decreases *old(self),
    {
        if self.finished {
            return Status::Failed;
        }
        let n = self.children.len();
        let ghost c0 = self.next_child as int;
        loop
            invariant
                n == self.children.len(),
                n == old(self).children().len(),
                c0 == old(self).cursor(),
                !self.finished,
                !old(self).finished(),
                c0 <= self.next_child <= n,
                self.wf(),
                same_between(old(self).children(), self.children(), 0, c0),
                ticked_between(old(self).children(), self.children(), c0, self.next_child as int),
                same_between(old(self).children(), self.children(), self.next_child as int, n as int),
                forall|j: int|
                    c0 <= j < self.next_child ==> (#[trigger] self.children()[j]).status()
                        == Status::Succeeded,
            decreases n - self.next_child,
        {
            if self.next_child >= n {
                proof {
                    let s = statuses(self.children());
                    lemma_first_other_skip(s, c0, n as int, Status::Succeeded);
                    lemma_first_other_here(s, n as int, Status::Succeeded);
                }
                return Status::Succeeded;
            }
            let i = self.next_child;
            let r = self.children[i].tick(world);
            if r == Status::Succeeded {
                self.next_child = i + 1;
            } else {
                if r == Status::Failed {
                    self.finished = true;
                }
                proof {
                    let s = statuses(self.children());
                    lemma_first_other_skip(s, c0, i as int, Status::Succeeded);
                    lemma_first_other_here(s, i as int, Status::Succeeded);
                }
                return r;
            }
        }
    }

    /// Resets every child.
    pub(crate) fn reset(&mut self)
        requires
            old(self).wf(),
        ensures
            final(self).wf(),
            final(self).is_initial(),
            Sequence::reset_rel(*old(self), *final(self)),
        decreases *old(self),
    {
        let n = self.children.len();
        let mut i: usize = 0;
        while i < n
            invariant
                n == self.children.len(),
                n == old(self).children().len(),
                i <= n,
                forall|j: int| 0 <= j < n ==> (#[trigger] self.children()[j]).wf(),
                forall|j: int| 0 <= j < i ==> (#[trigger] self.children()[j]).is_initial(),
                reset_between(old(self).children(), self.children(), 0, i as int),
                same_between(old(self).children(), self.children(), i as int, n as int),
            decreases n - i,
        {
            self.children[i].reset();
            i = i + 1;
        }
        self.next_child = 0;
        self.finished = false;
    }
}

impl<L> ActiveSequence<L> {
    /// Each child is smaller than the node that owns it.
    pub proof fn lemma_children_decrease(self)
        ensures
            decreases_to!(self => self.children()),
            forall|i: int|
                0 <= i < self.children().len() ==> decreases_to!(self => #[trigger] self.children()[i]),
    {
        assert forall|i: int| 0 <= i < self.children().len() implies decreases_to!(self => #[trigger] self.children()[i]) by {
            assert(decreases_to!(self.children => self.children[i]));
        }
        assert(decreases_to!(self.children => self.children@));
    }

    /// The children, in order.
    pub closed spec fn children(&self) -> Seq<Node<L>> {
        self.children@
    }

    /// The invariant of this node's own fields and of its subtrees.
    pub open spec fn wf(&self) -> bool
        decreases self,
    {
        forall|i: int| 0 <= i < self.children().len() ==> (#[trigger] self.children()[i]).wf()
    }

    /// Nothing below this node was ticked since it was built or reset.
    pub open spec fn is_initial(&self) -> bool
        decreases self,
    {
        forall|i: int| 0 <= i < self.children().len() ==> (#[trigger] self.children()[i]).is_initial()
    }

    /// `b` is `a` after a reset: every child is reset.
    pub open spec fn reset_rel(a: Self, b: Self) -> bool
        decreases a,
    {
        reset_between(a.children(), b.children(), 0, a.children().len() as int)
    }

    /// Every child from the first on is ticked while they succeed; the first
    /// other status is the result, and every later child is reset.
    pub open spec fn tick_rel(a: Self, b: Self, r: Status) -> bool
        decreases a,
    {
        let n = a.children().len() as int;
        let k = first_other(statuses(b.children()), 0, Status::Succeeded);
        let e = if k < n { k + 1 } else { n };
        &&& r == (if k < n { b.children()[k].status() } else { Status::Succeeded })
        &&& ticked_between(a.children(), b.children(), 0, e)
        &&& reset_between(a.children(), b.children(), e, n)
    }
}

impl<L: Leaf> ActiveSequence<L> {
    /// The children, in order.
    pub(crate) fn children_slice(&self) -> (r: &[Node<L>])
        ensures
            r@ == self.children(),
    {
        self.children.as_slice()
    }

    /// Creates a new `ActiveSequence` node from a vector of nodes.
    pub fn new(children: Vec<Node<L>>) -> (n: Node<L>)
        requires
            all_wf(children@),
        ensures
            n.wf(),
            n.status() == Status::Initialized,
            n.ticks() == 0,
            n.kind() is ActiveSequence,
            n.kind()->ActiveSequence_0.children() == children@,
            n.is_initial() <==> all_initial(children@),
    {
        let ghost v = children@;
        let n = Node::from_kind(Kind::ActiveSequence(ActiveSequence { children }));
        assert(n.is_initial() ==> all_initial(v)) by {
            if n.is_initial() {
                assert forall|i: int| 0 <= i < v.len() implies (#[trigger] v[i]).is_initial() by {
                    assert(n.kind()->ActiveSequence_0.children()[i] == v[i]);
                }
            }
        }
        n
    }

    /// Ticks the children as the composition rule says; see `tick_rel`.
    pub(crate) fn tick(&mut self, world: &L::World) -> (r: Status)
        requires
            old(self).wf(),
        ensures
            final(self).wf(),
            ActiveSequence::tick_rel(*old(self), *final(self), r),
        decreases *old(self),
    {
        let n = self.children.len();
        let mut ret = Status::Succeeded;
        let mut i: usize = 0;
        while i < n && ret == Status::Succeeded
            invariant
                n == self.children.len(),
                n == old(self).children().len(),
                i <= n,
                self.wf(),
                ticked_between(old(self).children(), self.children(), 0, i as int),
                same_between(old(self).children(), self.children(), i as int, n as int),
                ret == Status::Succeeded ==> forall|j: int|
                    0 <= j < i ==> (#[trigger] self.children()[j]).status() == Status::Succeeded,
                ret != Status::Succeeded ==> {
                    &&& 1 <= i
                    &&& self.children()[i - 1].status() == ret
                    &&& forall|j: int|
                        0 <= j < i - 1 ==> (#[trigger] self.children()[j]).status()
                            == Status::Succeeded
                },
            decreases n - i,
        {
            ret = self.children[i].tick(world);
            i = i + 1;
        }
        let ghost e = i as int;
        while i < n
            invariant
                n == self.children.len(),
                n == old(self).children().len(),
                e <= i <= n,
                self.wf(),
                ticked_between(old(self).children(), self.children(), 0, e),
                reset_between(old(self).children(), self.children(), e, i as int),
                same_between(old(self).children(), self.children(), i as int, n as int),
                forall|j: int| e <= j < i ==> (#[trigger] self.children()[j]).is_initial(),
                ret == Status::Succeeded ==> e == n && forall|j: int|
                    0 <= j < n ==> (#[trigger] self.children()[j]).status() == Status::Succeeded,
                ret != Status::Succeeded ==> {
                    &&& 1 <= e
                    &&& self.children()[e - 1].status() == ret
                    &&& forall|j: int|
                        0 <= j < e - 1 ==> (#[trigger] self.children()[j]).status()
                            == Status::Succeeded
                },
            decreases n - i,
        {
            self.children[i].reset();
            i = i + 1;
        }
        proof {
            let s = statuses(self.children());
            if ret == Status::Succeeded {
                lemma_first_other_skip(s, 0, n as int, Status::Succeeded);
                lemma_first_other_here(s, n as int, Status::Succeeded);
            } else {
                lemma_first_other_skip(s, 0, e - 1, Status::Succeeded);
                lemma_first_other_here(s, e - 1, Status::Succeeded);
            }
        }
        ret
    }

    /// Resets every child.
    pub(crate) fn reset(&mut self)
        requires
            old(self).wf(),
        ensures
            final(self).wf(),
            final(self).is_initial(),
            ActiveSequence::reset_rel(*old(self), *final(self)),
        decreases *old(self),
    {
        let n = self.children.len();
        let mut i: usize = 0;
        while i < n
            invariant
                n == self.children.len(),
                n == old(self).children().len(),
                i <= n,
                forall|j: int| 0 <= j < n ==> (#[trigger] self.children()[j]).wf(),
                forall|j: int| 0 <= j < i ==> (#[trigger] self.children()[j]).is_initial(),
                reset_between(old(self).children(), self.children(), 0, i as int),
                same_between(old(self).children(), self.children(), i as int, n as int),
            decreases n - i,
        {
            self.children[i].reset();
            i = i + 1;
        }
    }
}

} // verus!
