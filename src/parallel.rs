//! A composite with "threshold" semantics: it ticks every child on every tick
//! and counts how many succeeded and how many failed.
use vstd::prelude::*;

use crate::status::Status;
use crate::node::{
    Kind, Leaf, Node, all_initial, all_wf, reset_between, same_between, statuses,
    ticked_between,
};

verus! {

/// How many times `t` occurs in `s`.
pub open spec fn count(s: Seq<Status>, t: Status) -> nat
    decreases s.len(),
{
    if s.len() == 0 {
        0
    } else {
        count(s.drop_last(), t) + (if s.last() == t { 1nat } else { 0nat })
    }
}

/// The result of a parallel node with `n` children, `required` of which must
/// succeed, after `successes` succeeded and `failures` failed.
pub open spec fn parallel_outcome(successes: int, failures: int, n: int, required: int) -> Status {
    if successes >= required {
        Status::Succeeded
    } else if failures > n - required {
        Status::Failed
    } else {
        Status::Running
    }
}

/// A parallel node was asked to wait for more successes than it has children.
#[derive(Copy, Clone, PartialEq, Eq, Debug, Structural)]
pub struct ThresholdError {
    /// The number of successes that was asked for.
    pub required: usize,
    /// The number of children.
    pub children: usize,
}

/// Ticks every child on every tick. It succeeds once enough children
/// succeeded, fails once too many failed for that to happen, and is running
/// otherwise. Children that finished on an earlier tick are ticked again.
pub struct Parallel<L> {
    children: Vec<Node<L>>,
    required_successes: usize,
}

impl<L> Parallel<L> {
    /// Each child is smaller than the node that owns it.
    pub proof fn lemma_children_decrease(self)
        ensures
            decreases_to!(self => self.children()),
            forall|i: int|
                0 <= i < self.children().len() ==> decreases_to!(self => #[trigger] self.children()[i]),
    {
        assert forall|i: int| 0 <= i < self.children().len() implies decreases_to!(self => #[trigger] self.children()[i]) by {
            assert(decreases_to!(self.children => self.children[i]));
        }
        assert(decreases_to!(self.children => self.children@));
    }

    /// The children, in order.
    pub closed spec fn children(&self) -> Seq<Node<L>> {
        self.children@
    }

    /// How many children must succeed for the node to succeed.
    pub closed spec fn required(&self) -> int {
        self.required_successes as int
    }

    /// The invariant of this node's own fields and of its subtrees.
    pub open spec fn wf(&self) -> bool
        decreases self,
    {
        &&& 0 <= self.required() <= self.children().len()
        &&& forall|i: int| 0 <= i < self.children().len() ==> (#[trigger] self.children()[i]).wf()
    }

    /// Nothing below this node was ticked since it was built or reset.
    pub open spec fn is_initial(&self) -> bool
        decreases self,
    {
        forall|i: int| 0 <= i < self.children().len() ==> (#[trigger] self.children()[i]).is_initial()
    }

    /// `b` is `a` after a reset: every child is reset.
    pub open spec fn reset_rel(a: Self, b: Self) -> bool
        decreases a,
    {
        &&& b.required() == a.required()
        &&& reset_between(a.children(), b.children(), 0, a.children().len() as int)
    }

    /// Every child is ticked once; the result follows from the counts.
    pub open spec fn tick_rel(a: Self, b: Self, r: Status) -> bool
        decreases a,
    {
        let n = a.children().len() as int;
        let s = statuses(b.children());
        &&& b.required() == a.required()
        &&& ticked_between(a.children(), b.children(), 0, n)
        &&& r == parallel_outcome(
            count(s, Status::Succeeded) as int,
            count(s, Status::Failed) as int,
            n,
            a.required(),
        )
    }
}

impl<L: Leaf> Parallel<L> {
    /// The children, in order.
    pub(crate) fn children_slice(&self) -> (r: &[Node<L>])
        ensures
            r@ == self.children(),
    {
        self.children.as_slice()
    }

    /// Creates a new `Parallel` node that succeeds once `required_successes`
    /// of its children succeed. Asking for more successes than there are
    /// children is an error.
    pub fn new(children: Vec<Node<L>>, required_successes: usize) -> (res: Result<
        Node<L>,
        ThresholdError,
    >)
        requires
            all_wf(children@),
        ensures
            required_successes <= children@.len() <==> res is Ok,
            res is Err ==> res->Err_0 == (ThresholdError {
                required: required_successes,
                children: children@.len() as usize,
            }),
            res matches Ok(n) ==> {
                &&& n.wf()
                &&& n.status() == Status::Initialized
                &&& n.ticks() == 0
                &&& n.kind() is Parallel
                &&& n.kind()->Parallel_0.children() == children@
                &&& n.kind()->Parallel_0.required() == required_successes
                &&& (n.is_initial() <==> all_initial(children@))
            },
    {
        if required_successes > children.len() {
            return Err(ThresholdError { required: required_successes, children: children.len() });
        }
        let ghost v = children@;
        let n = Node::from_kind(
            Kind::Parallel(Parallel { children, required_successes }),
        );
        assert(n.is_initial() ==> all_initial(v)) by {
            if n.is_initial() {
                assert forall|i: int| 0 <= i < v.len() implies (#[trigger] v[i]).is_initial() by {
                    assert(n.kind()->Parallel_0.children()[i] == v[i]);
                }
            }
        }
        Ok(n)
    }

    /// Ticks the children as the composition rule says; see `tick_rel`.
    pub(crate) fn tick(&mut self, world: &L::World) -> (r: Status)
        requires
            old(self).wf(),
        ensures
            final(self).wf(),
            Parallel::tick_rel(*old(self), *final(self), r),
        decreases *old(self),
    {
        let n = self.children.len();
        let mut successes: usize = 0;
        let mut failures: usize = 0;
        let mut i: usize = 0;
        while i < n
            invariant
                n == self.children.len(),
                n == old(self).children().len(),
                i <= n,
                self.wf(),
                self.required() == old(self).required(),
                ticked_between(old(self).children(), self.children(), 0, i as int),
                same_between(old(self).children(), self.children(), i as int, n as int),
                successes == count(
                    statuses(self.children()).subrange(0, i as int),
                    Status::Succeeded,
                ),
                failures == count(statuses(self.children()).subrange(0, i as int), Status::Failed),
                successes + failures <= i,
            decreases n - i,
        {
            let ghost before = statuses(self.children());
            let child_status = self.children[i].tick(world);
            proof {
                let after = statuses(self.children());
                assert(after.subrange(0, i + 1).drop_last() =~= before.subrange(0, i as int));
                assert(after.subrange(0, i + 1).last() == child_status);
            }
            if child_status == Status::Succeeded {
                successes = successes + 1;
            } else if child_status == Status::Failed {
                failures = failures + 1;
            }
            i = i + 1;
        }
        proof {
            assert(statuses(self.children()).subrange(0, n as int) =~= statuses(self.children()));
        }
        if successes >= self.required_successes {
            Status::Succeeded
        } else if failures > n - self.required_successes {
            Status::Failed
        } else {
            Status::Running
        }
    }

    /// Resets every child.
    pub(crate) fn reset(&mut self)
        requires
            old(self).wf(),
        ensures
            final(self).wf(),
            final(self).is_initial(),
            Parallel::reset_rel(*old(self), *final(self)),
        decreases *old(self),
    {
        let n = self.children.len();
        let mut i: usize = 0;
        while i < n
            invariant
                n == self.children.len(),
                n == old(self).children().len(),
                i <= n,
                self.required() == old(self).required(),
                self.required() <= n,
                forall|j: int| 0 <= j < n ==> (#[trigger] self.children()[j]).wf(),
                forall|j: int| 0 <= j < i ==> (#[trigger] self.children()[j]).is_initial(),
                reset_between(old(self).children(), self.children(), 0, i as int),
                same_between(old(self).children(), self.children(), i as int, n as int),
            decreases n - i,
        {
            self.children[i].reset();
            i = i + 1;
        }
    }
}

} // verus!
