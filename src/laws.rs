//! Properties that relate a node before and after a tick.
use vstd::prelude::*;

use crate::node::{Kind, Node, lemma_first_other_bounds, statuses};
use crate::parallel::count;
use crate::status::Status;

verus! {

/// A composite with no children finishes at once: a sequence (active or not)
/// and a parallel node succeed, a selector (active or not) fails.
pub proof fn lemma_empty_composite<L>(a: Node<L>, b: Node<L>, r: Status)
    requires
        a.wf(),
        Node::tick_rel(a, b, r),
        !(a.kind() is Leaf),
        a.children_of().len() == 0,
    ensures
        (a.kind() is Sequence || a.kind() is ActiveSequence || a.kind() is Parallel) ==> r
            == Status::Succeeded,
        (a.kind() is Selector || a.kind() is ActiveSelector) ==> r == Status::Failed,
{
    match (a.kind(), b.kind()) {
        (Kind::Sequence(x), Kind::Sequence(y)) => {
            lemma_first_other_bounds(statuses(y.children()), x.cursor(), Status::Succeeded);
        },
        (Kind::ActiveSequence(x), Kind::ActiveSequence(y)) => {
            lemma_first_other_bounds(statuses(y.children()), 0, Status::Succeeded);
        },
        (Kind::Selector(x), Kind::Selector(y)) => {
            lemma_first_other_bounds(statuses(y.children()), x.cursor(), Status::Failed);
        },
        (Kind::ActiveSelector(x), Kind::ActiveSelector(y)) => {
            lemma_first_other_bounds(statuses(y.children()), 0, Status::Failed);
        },
        (Kind::Parallel(x), Kind::Parallel(y)) => {
            assert(statuses(y.children()) =~= Seq::<Status>::empty());
            assert(count(statuses(y.children()), Status::Succeeded) == 0);
        },
        _ => {},
    }
}

/// An active sequence ticks its first child on every tick. When that child
/// does not succeed, its status is the result and every other child is
/// reset.
pub proof fn lemma_active_sequence_starts_over<L>(a: Node<L>, b: Node<L>, r: Status)
    requires
        Node::tick_rel(a, b, r),
        a.kind() is ActiveSequence,
        a.children_of().len() > 0,
    ensures
        Node::tick_rel(a.children_of()[0], b.children_of()[0], b.children_of()[0].status()),
        b.children_of()[0].status() != Status::Succeeded ==> {
            &&& r == b.children_of()[0].status()
            &&& forall|i: int|
                1 <= i < a.children_of().len() ==> Node::reset_rel(
                    #[trigger] a.children_of()[i],
                    b.children_of()[i],
                )
        },
{
    let x = a.kind()->ActiveSequence_0;
    let y = b.kind()->ActiveSequence_0;
    let s = statuses(y.children());
    lemma_first_other_bounds(s, 0, Status::Succeeded);
    assert(s[0] == y.children()[0].status());
}

/// An active selector ticks its first child on every tick. When that child
/// does not fail, its status is the result and every other child is reset.
pub proof fn lemma_active_selector_starts_over<L>(a: Node<L>, b: Node<L>, r: Status)
    requires
        Node::tick_rel(a, b, r),
        a.kind() is ActiveSelector,
        a.children_of().len() > 0,
    ensures
        Node::tick_rel(a.children_of()[0], b.children_of()[0], b.children_of()[0].status()),
        b.children_of()[0].status() != Status::Failed ==> {
            &&& r == b.children_of()[0].status()
            &&& forall|i: int|
                1 <= i < a.children_of().len() ==> Node::reset_rel(
                    #[trigger] a.children_of()[i],
                    b.children_of()[i],
                )
        },
{
    let x = a.kind()->ActiveSelector_0;
    let y = b.kind()->ActiveSelector_0;
    let s = statuses(y.children());
    lemma_first_other_bounds(s, 0, Status::Failed);
    assert(s[0] == y.children()[0].status());
}

/// A sequence or selector never ticks again a child it has moved past, and
/// once it has returned a terminal status a further tick (with no reset in
/// between) returns that status again without ticking or resetting any
/// child.
pub proof fn lemma_resumable_keeps_progress<L>(a: Node<L>, b: Node<L>, r: Status)
    requires
        a.wf(),
        Node::tick_rel(a, b, r),
        a.kind() is Sequence || a.kind() is Selector,
    ensures
        forall|i: int|
            0 <= i < a.cursor_of() ==> #[trigger] b.children_of()[i] == a.children_of()[i],
        a.status().done() ==> r == a.status() && b.children_of() == a.children_of(),
{
    match (a.kind(), b.kind()) {
        (Kind::Sequence(x), Kind::Sequence(y)) => {
            if !x.finished() {
                lemma_first_other_bounds(statuses(y.children()), x.cursor(), Status::Succeeded);
                if a.status() == Status::Succeeded {
                    assert(y.children() =~= x.children());
                }
            }
        },
        (Kind::Selector(x), Kind::Selector(y)) => {
            if !x.finished() {
                lemma_first_other_bounds(statuses(y.children()), x.cursor(), Status::Failed);
                if a.status() == Status::Failed {
                    assert(y.children() =~= x.children());
                }
            }
        },
        _ => {},
    }
}

/// Active sequences and selectors tick their first child on every tick,
/// whatever status they finished with before.
pub proof fn lemma_active_always_reticks<L>(a: Node<L>, b: Node<L>, r: Status)
    requires
        Node::tick_rel(a, b, r),
        a.kind() is ActiveSequence || a.kind() is ActiveSelector,
        a.children_of().len() > 0,
    ensures
        Node::tick_rel(a.children_of()[0], b.children_of()[0], b.children_of()[0].status()),
{
    if a.kind() is ActiveSequence {
        lemma_active_sequence_starts_over(a, b, r);
    } else {
        lemma_active_selector_starts_over(a, b, r);
    }
}

} // verus!
