//! The node abstraction: a status, the kind-specific behavior, and the
//! relations that describe a tick and a reset.
use vstd::prelude::*;

use crate::status::Status;
use crate::sequence::{Sequence, ActiveSequence};
use crate::selector::{Selector, ActiveSelector};
use crate::parallel::Parallel;

verus! {

/// A user-supplied leaf behavior: an action or a condition evaluated against
/// the shared world state.
pub trait Leaf {
    /// The world state that the leaf reads.
    type World;

    /// Evaluates the leaf once.
    fn tick(&mut self, world: &Self::World) -> Status;

    /// Returns the leaf to its initial state.
    fn reset(&mut self);

    /// A stable label for the leaf's kind, for diagnostics.
    fn label(&self) -> &'static str;
}

/// The behavior behind a node.
pub enum Kind<L> {
    /// A user-supplied leaf.
    Leaf(L),
    /// A resumable "and".
    Sequence(Sequence<L>),
    /// An "and" that starts over on every tick.
    ActiveSequence(ActiveSequence<L>),
    /// A resumable "or".
    Selector(Selector<L>),
    /// An "or" that starts over on every tick.
    ActiveSelector(ActiveSelector<L>),
    /// A threshold over all children.
    Parallel(Parallel<L>),
}

/// A node of a behavior tree. It owns its behavior and remembers the status
/// that its most recent tick returned.
pub struct Node<L> {
    status: Status,
    ticks: Ghost<nat>,
    kind: Kind<L>,
}

/// The statuses of a list of nodes.
pub open spec fn statuses<L>(s: Seq<Node<L>>) -> Seq<Status> {
    s.map_values(|n: Node<L>| n.status())
}

/// The first index at or after `from` whose status is not `t`, or the length
/// of `s` when there is none.
pub open spec fn first_other(s: Seq<Status>, from: int, t: Status) -> int
    decreases s.len() - from,
{
    if from >= s.len() {
        s.len() as int
    } else if s[from] != t {
        from
    } else {
        first_other(s, from + 1, t)
    }
}

/// The label of a composite kind.
pub open spec fn kind_label<L>(k: Kind<L>) -> &'static str {
    match k {
        Kind::Leaf(_) => "Leaf",
        Kind::Sequence(_) => "Sequence",
        Kind::ActiveSequence(_) => "ActiveSequence",
        Kind::Selector(_) => "Selector",
        Kind::ActiveSelector(_) => "ActiveSelector",
        Kind::Parallel(_) => "Parallel",
    }
}

/// Every node of `s` is well formed.
pub open spec fn all_wf<L>(s: Seq<Node<L>>) -> bool {
    forall|i: int| 0 <= i < s.len() ==> (#[trigger] s[i]).wf()
}

/// Every node of `s` is in its initial state.
pub open spec fn all_initial<L>(s: Seq<Node<L>>) -> bool {
    forall|i: int| 0 <= i < s.len() ==> (#[trigger] s[i]).is_initial()
}

/// Each node of `b` in `[lo, hi)` is the matching node of `a` ticked once.
pub open spec fn ticked_between<L>(a: Seq<Node<L>>, b: Seq<Node<L>>, lo: int, hi: int) -> bool
    decreases a,
{
    &&& a.len() == b.len()
    &&& forall|i: int|
        #![trigger a[i]]
        #![trigger b[i]]
        lo <= i < hi && 0 <= i < a.len() ==> Node::tick_rel(a[i], b[i], b[i].status())
}

/// Each node of `b` in `[lo, hi)` is the matching node of `a` after a reset.
pub open spec fn reset_between<L>(a: Seq<Node<L>>, b: Seq<Node<L>>, lo: int, hi: int) -> bool
    decreases a,
{
    &&& a.len() == b.len()
    &&& forall|i: int|
        #![trigger a[i]]
        #![trigger b[i]]
        lo <= i < hi && 0 <= i < a.len() ==> Node::reset_rel(a[i], b[i])
}

/// The nodes of `a` and `b` in `[lo, hi)` are the same.
pub open spec fn same_between<L>(a: Seq<Node<L>>, b: Seq<Node<L>>, lo: int, hi: int) -> bool {
    &&& a.len() == b.len()
    &&& forall|i: int|
        #![trigger a[i]]
        #![trigger b[i]]
        lo <= i < hi && 0 <= i < a.len() ==> b[i] == a[i]
}

/// `first_other` skips a run of `t`.
pub proof fn lemma_first_other_skip(s: Seq<Status>, from: int, i: int, t: Status)
    requires
        0 <= from <= i <= s.len(),
        forall|j: int| from <= j < i ==> s[j] == t,
    ensures
        first_other(s, from, t) == first_other(s, i, t),
    decreases i - from,
{
    if from < i {
        lemma_first_other_skip(s, from + 1, i, t);
    }
}

/// `first_other` finds the first status other than `t` from `from` on.
pub proof fn lemma_first_other_bounds(s: Seq<Status>, from: int, t: Status)
    requires
        0 <= from <= s.len(),
    ensures
        from <= first_other(s, from, t) <= s.len(),
        first_other(s, from, t) < s.len() ==> s[first_other(s, from, t)] != t,
        forall|j: int| from <= j < first_other(s, from, t) ==> s[j] == t,
    decreases s.len() - from,
{
    if from < s.len() && s[from] == t {
        lemma_first_other_bounds(s, from + 1, t);
    }
}

/// `first_other` at a position that holds another status, or at the end.
pub proof fn lemma_first_other_here(s: Seq<Status>, i: int, t: Status)
    requires
        0 <= i <= s.len(),
        i == s.len() || s[i] != t,
    ensures
        first_other(s, i, t) == i,
{
}

impl<L> Node<L> {
    /// The status returned by the most recent tick (`Initialized` when never
    /// ticked since creation or reset).
    pub closed spec fn status(&self) -> Status {
        self.status
    }

    /// How many times the node was ticked since it was created or reset.
    pub closed spec fn ticks(&self) -> nat {
        self.ticks@
    }

    /// The node's behavior.
    pub closed spec fn kind(&self) -> Kind<L> {
        self.kind
    }

    /// The children of this node (none for a leaf).
    pub open spec fn children_of(&self) -> Seq<Node<L>> {
        match self.kind() {
            Kind::Leaf(_) => Seq::empty(),
            Kind::Sequence(s) => s.children(),
            Kind::ActiveSequence(s) => s.children(),
            Kind::Selector(s) => s.children(),
            Kind::ActiveSelector(s) => s.children(),
            Kind::Parallel(s) => s.children(),
        }
    }

    /// The invariant of the whole subtree.
    pub open spec fn wf(&self) -> bool
        decreases self,
    {
        &&& (self.ticks() == 0 ==> self.status() == Status::Initialized)
        &&& match self.kind() {
            Kind::Leaf(_) => true,
            Kind::Sequence(s) => {
                &&& s.wf()
                &&& (self.status() == Status::Succeeded ==> s.cursor() == s.children().len())
                &&& (s.finished() <==> self.status() == Status::Failed)
            },
            Kind::ActiveSequence(s) => s.wf(),
            Kind::Selector(s) => {
                &&& s.wf()
                &&& (self.status() == Status::Failed ==> s.cursor() == s.children().len())
                &&& (s.finished() <==> self.status() == Status::Succeeded)
            },
            Kind::ActiveSelector(s) => s.wf(),
            Kind::Parallel(s) => s.wf(),
        }
    }

    /// The subtree is as it was built: nothing ticked, every cursor at the
    /// start.
    pub open spec fn is_initial(&self) -> bool
        decreases self,
    {
        &&& self.ticks() == 0
        &&& self.status() == Status::Initialized
        &&& match self.kind() {
            Kind::Leaf(_) => true,
            Kind::Sequence(s) => s.is_initial(),
            Kind::ActiveSequence(s) => s.is_initial(),
            Kind::Selector(s) => s.is_initial(),
            Kind::ActiveSelector(s) => s.is_initial(),
            Kind::Parallel(s) => s.is_initial(),
        }
    }

    /// `b` is `a` after a reset: the same shape, every node back to its
    /// initial state.
    pub open spec fn reset_rel(a: Self, b: Self) -> bool
        decreases a,
    {
        &&& b.ticks() == 0
        &&& b.status() == Status::Initialized
        &&& match (a.kind(), b.kind()) {
            (Kind::Leaf(_), Kind::Leaf(_)) => true,
            (Kind::Sequence(x), Kind::Sequence(y)) => Sequence::reset_rel(x, y),
            (Kind::ActiveSequence(x), Kind::ActiveSequence(y)) => ActiveSequence::reset_rel(x, y),
            (Kind::Selector(x), Kind::Selector(y)) => Selector::reset_rel(x, y),
            (Kind::ActiveSelector(x), Kind::ActiveSelector(y)) => ActiveSelector::reset_rel(x, y),
            (Kind::Parallel(x), Kind::Parallel(y)) => Parallel::reset_rel(x, y),
            _ => false,
        }
    }

    /// `b` is `a` after one tick that returned `r`.
    pub open spec fn tick_rel(a: Self, b: Self, r: Status) -> bool
        decreases a,
    {
        &&& b.status() == r
        &&& b.ticks() == a.ticks() + 1
        &&& match (a.kind(), b.kind()) {
            (Kind::Leaf(_), Kind::Leaf(_)) => true,
            (Kind::Sequence(x), Kind::Sequence(y)) => Sequence::tick_rel(x, y, r),
            (Kind::ActiveSequence(x), Kind::ActiveSequence(y)) => ActiveSequence::tick_rel(x, y, r),
            (Kind::Selector(x), Kind::Selector(y)) => Selector::tick_rel(x, y, r),
            (Kind::ActiveSelector(x), Kind::ActiveSelector(y)) => ActiveSelector::tick_rel(x, y, r),
            (Kind::Parallel(x), Kind::Parallel(y)) => Parallel::tick_rel(x, y, r),
            _ => false,
        }
    }
}

impl<L: Leaf> Node<L> {
    /// The children of this node, in order (none for a leaf).
    pub fn children(&self) -> (r: &[Node<L>])
        ensures
            r@ == self.children_of(),
    {
        match &self.kind {
            Kind::Leaf(_) => &[],
            Kind::Sequence(s) => s.children_slice(),
            Kind::ActiveSequence(s) => s.children_slice(),
            Kind::Selector(s) => s.children_slice(),
            Kind::ActiveSelector(s) => s.children_slice(),
            Kind::Parallel(s) => s.children_slice(),
        }
    }

    /// A stable label for the node's kind, for diagnostics.
    pub fn label(&self) -> (r: &'static str)
        ensures
            !(self.kind() is Leaf) ==> r@ == kind_label(self.kind())@,
    {
        match &self.kind {
            Kind::Leaf(l) => l.label(),
            Kind::Sequence(_) => "Sequence",
            Kind::ActiveSequence(_) => "ActiveSequence",
            Kind::Selector(_) => "Selector",
            Kind::ActiveSelector(_) => "ActiveSelector",
            Kind::Parallel(_) => "Parallel",
        }
    }

    /// Wraps a behavior in a node that was never ticked.
    pub(crate) fn from_kind(kind: Kind<L>) -> (n: Self)
        ensures
            n.status() == Status::Initialized,
            n.ticks() == 0,
            n.kind() == kind,
    {
        Node { status: Status::Initialized, ticks: Ghost(0), kind }
    }

    /// Creates a leaf node.
    pub fn leaf(leaf: L) -> (n: Self)
        ensures
            n.wf(),
            n.is_initial(),
            n.kind() == Kind::Leaf(leaf),
    {
        Node::from_kind(Kind::Leaf(leaf))
    }

    /// The status returned by the most recent tick.
    pub fn get_status(&self) -> (r: Status)
        ensures
            r == self.status(),
    {
        self.status
    }

    /// Ticks the node once and records the result.
    pub fn tick(&mut self, world: &L::World) -> (r: Status)
        requires
            old(self).wf(),
        ensures
            final(self).wf(),
            Node::tick_rel(*old(self), *final(self), r),
        decreases *old(self),
    {
        let r = match &mut self.kind {
            Kind::Leaf(l) => l.tick(world),
            Kind::Sequence(s) => s.tick(world),
            Kind::ActiveSequence(s) => s.tick(world),
            Kind::Selector(s) => s.tick(world),
            Kind::ActiveSelector(s) => s.tick(world),
            Kind::Parallel(s) => s.tick(world),
        };
        self.status = r;
        self.ticks = Ghost(self.ticks@ + 1);
        proof {
            match (old(self).kind(), self.kind()) {
                (Kind::Sequence(x), Kind::Sequence(y)) => {
                    lemma_first_other_bounds(statuses(y.children()), x.cursor(), Status::Succeeded);
                },
                (Kind::Selector(x), Kind::Selector(y)) => {
                    lemma_first_other_bounds(statuses(y.children()), x.cursor(), Status::Failed);
                },
                _ => {},
            }
        }
        r
    }

    /// Returns this node and its whole subtree to `Initialized`.
    pub fn reset(&mut self)
        requires
            old(self).wf(),
        ensures
            final(self).wf(),
            final(self).is_initial(),
            Node::reset_rel(*old(self), *final(self)),
        decreases *old(self),
    {
        match &mut self.kind {
            Kind::Leaf(l) => l.reset(),
            Kind::Sequence(s) => s.reset(),
            Kind::ActiveSequence(s) => s.reset(),
            Kind::Selector(s) => s.reset(),
            Kind::ActiveSelector(s) => s.reset(),
            Kind::Parallel(s) => s.reset(),
        }
        self.status = Status::Initialized;
        self.ticks = Ghost(0);
    }
}

} // verus!

verus! {

impl<L> Node<L> {
    /// A number for each kind of node.
    pub open spec fn tag(&self) -> int {
        match self.kind() {
            Kind::Leaf(_) => 0,
            Kind::Sequence(_) => 1,
            Kind::ActiveSequence(_) => 2,
            Kind::Selector(_) => 3,
            Kind::ActiveSelector(_) => 4,
            Kind::Parallel(_) => 5,
        }
    }

    /// The resumption cursor of a sequence or selector (zero for the other
    /// kinds).
    pub open spec fn cursor_of(&self) -> int {
        match self.kind() {
            Kind::Sequence(s) => s.cursor(),
            Kind::Selector(s) => s.cursor(),
            _ => 0,
        }
    }

    /// Whether a sequence or selector has been decided by a child (false
    /// for the other kinds).
    pub open spec fn finished_of(&self) -> bool {
        match self.kind() {
            Kind::Sequence(s) => s.finished(),
            Kind::Selector(s) => s.finished(),
            _ => false,
        }
    }

    /// The success threshold of a parallel node (zero for the other kinds).
    pub open spec fn required_of(&self) -> int {
        match self.kind() {
            Kind::Parallel(s) => s.required(),
            _ => 0,
        }
    }

    /// Each child is smaller than the node that owns it.
    pub proof fn lemma_children_decrease(self)
        ensures
            !(self.kind() is Leaf) ==> decreases_to!(self => self.children_of()),
            forall|i: int|
                0 <= i < self.children_of().len() ==> decreases_to!(self => #[trigger] self.children_of()[i]),
    {
        match self.kind() {
            Kind::Leaf(_) => {},
            Kind::Sequence(s) => s.lemma_children_decrease(),
            Kind::ActiveSequence(s) => s.lemma_children_decrease(),
            Kind::Selector(s) => s.lemma_children_decrease(),
            Kind::ActiveSelector(s) => s.lemma_children_decrease(),
            Kind::Parallel(s) => s.lemma_children_decrease(),
        }
    }

    /// `a` and `b` are trees of the same kinds, arities and thresholds.
    pub open spec fn same_shape(a: Self, b: Self) -> bool
        decreases a,
    {
        proof {
            a.lemma_children_decrease();
        }
        &&& a.tag() == b.tag()
        &&& a.required_of() == b.required_of()
        &&& a.children_of().len() == b.children_of().len()
        &&& forall|i: int|
            0 <= i < a.children_of().len() ==> Node::same_shape(
                #[trigger] a.children_of()[i],
                b.children_of()[i],
            )
    }

    /// `a` and `b` have the same shape and, node by node, the same status,
    /// tick count, cursor and decision. Leaf behaviors are not compared.
    pub open spec fn same_state(a: Self, b: Self) -> bool
        decreases a,
    {
        proof {
            a.lemma_children_decrease();
        }
        &&& a.tag() == b.tag()
        &&& a.required_of() == b.required_of()
        &&& a.cursor_of() == b.cursor_of()
        &&& a.finished_of() == b.finished_of()
        &&& a.status() == b.status()
        &&& a.ticks() == b.ticks()
        &&& a.children_of().len() == b.children_of().len()
        &&& forall|i: int|
            0 <= i < a.children_of().len() ==> Node::same_state(
                #[trigger] a.children_of()[i],
                b.children_of()[i],
            )
    }

    /// Leaf by leaf, `a` and `b` hold the same status.
    pub open spec fn same_responses(a: Self, b: Self) -> bool
        decreases a,
    {
        proof {
            a.lemma_children_decrease();
        }
        &&& (a.kind() is Leaf ==> a.status() == b.status())
        &&& a.children_of().len() == b.children_of().len()
        &&& forall|i: int|
            0 <= i < a.children_of().len() ==> Node::same_responses(
                #[trigger] a.children_of()[i],
                b.children_of()[i],
            )
    }
}

} // verus!
