//! A reset node replays: after `reset`, the same leaf responses give the same
//! results, tick by tick, as the first run from `Initialized`.
use vstd::prelude::*;

use crate::node::{
    Kind, Node, first_other, lemma_first_other_bounds, reset_between, same_between, statuses,
    ticked_between,
};
use crate::status::Status;

verus! {

/// Whatever the leaves answer, ticking `a` and `b` once gives trees in the
/// same state as soon as the leaves answered alike.
pub open spec fn det_at<L>(a: Node<L>, b: Node<L>) -> bool {
    forall|a2: Node<L>, b2: Node<L>|
        #![trigger Node::tick_rel(a, a2, a2.status()), Node::tick_rel(b, b2, b2.status())]
        Node::tick_rel(a, a2, a2.status()) && Node::tick_rel(b, b2, b2.status())
            && Node::same_responses(a2, b2) ==> Node::same_state(a2, b2)
}

/// A tree has its own shape.
pub proof fn lemma_shape_refl<L>(a: Node<L>)
    ensures
        Node::same_shape(a, a),
    decreases a,
{
    a.lemma_children_decrease();
    assert forall|i: int| 0 <= i < a.children_of().len() implies Node::same_shape(
        #[trigger] a.children_of()[i],
        a.children_of()[i],
    ) by {
        lemma_shape_refl(a.children_of()[i]);
    }
}

/// Having the same shape is symmetric.
pub proof fn lemma_shape_sym<L>(a: Node<L>, b: Node<L>)
    requires
        Node::same_shape(a, b),
    ensures
        Node::same_shape(b, a),
    decreases a,
{
    a.lemma_children_decrease();
    assert forall|i: int| 0 <= i < b.children_of().len() implies Node::same_shape(
        #[trigger] b.children_of()[i],
        a.children_of()[i],
    ) by {
        lemma_shape_sym(a.children_of()[i], b.children_of()[i]);
    }
}

/// Having the same shape is transitive.
pub proof fn lemma_shape_trans<L>(a: Node<L>, b: Node<L>, c: Node<L>)
    requires
        Node::same_shape(a, b),
        Node::same_shape(b, c),
    ensures
        Node::same_shape(a, c),
    decreases a,
{
    a.lemma_children_decrease();
    assert forall|i: int| 0 <= i < a.children_of().len() implies Node::same_shape(
        #[trigger] a.children_of()[i],
        c.children_of()[i],
    ) by {
        lemma_shape_trans(a.children_of()[i], b.children_of()[i], c.children_of()[i]);
    }
}

/// Two trees in the same state have the same shape.
pub proof fn lemma_state_shape<L>(a: Node<L>, b: Node<L>)
    requires
        Node::same_state(a, b),
    ensures
        Node::same_shape(a, b),
    decreases a,
{
    a.lemma_children_decrease();
    assert forall|i: int| 0 <= i < a.children_of().len() implies Node::same_shape(
        #[trigger] a.children_of()[i],
        b.children_of()[i],
    ) by {
        lemma_state_shape(a.children_of()[i], b.children_of()[i]);
    }
}

/// A reset keeps the shape and leaves the whole tree initial.
pub proof fn lemma_reset_shape<L>(a: Node<L>, b: Node<L>)
    requires
        Node::reset_rel(a, b),
    ensures
        Node::same_shape(a, b),
        b.is_initial(),
    decreases a,
{
    a.lemma_children_decrease();
    assert forall|i: int| 0 <= i < a.children_of().len() implies Node::same_shape(
        #[trigger] a.children_of()[i],
        b.children_of()[i],
    ) && b.children_of()[i].is_initial() by {
        lemma_reset_shape(a.children_of()[i], b.children_of()[i]);
    }
}

/// A tick keeps the shape.
pub proof fn lemma_tick_shape<L>(a: Node<L>, b: Node<L>, r: Status)
    requires
        Node::tick_rel(a, b, r),
    ensures
        Node::same_shape(a, b),
    decreases a,
{
    a.lemma_children_decrease();
    assert(forall|i: int|
        0 <= i < a.children_of().len() ==> Node::tick_rel(
            #[trigger] a.children_of()[i],
            b.children_of()[i],
            b.children_of()[i].status(),
        ) || Node::reset_rel(a.children_of()[i], b.children_of()[i]) || b.children_of()[i]
            == a.children_of()[i]);
    assert forall|i: int| 0 <= i < a.children_of().len() implies Node::same_shape(
        #[trigger] a.children_of()[i],
        b.children_of()[i],
    ) by {
        let (x, y) = (a.children_of()[i], b.children_of()[i]);
        if Node::tick_rel(x, y, y.status()) {
            lemma_tick_shape(x, y, y.status());
        } else if Node::reset_rel(x, y) {
            lemma_reset_shape(x, y);
        } else {
            lemma_shape_refl(x);
        }
    }
}

/// Two initial trees of the same shape are in the same state.
pub proof fn lemma_initial_same_state<L>(a: Node<L>, b: Node<L>)
    requires
        a.is_initial(),
        b.is_initial(),
        Node::same_shape(a, b),
    ensures
        Node::same_state(a, b),
    decreases a,
{
    a.lemma_children_decrease();
    assert forall|i: int| 0 <= i < a.children_of().len() implies Node::same_state(
        #[trigger] a.children_of()[i],
        b.children_of()[i],
    ) by {
        lemma_initial_same_state(a.children_of()[i], b.children_of()[i]);
    }
}

/// The children `y` are the children `x` after one tick of a sequence-like
/// composite with target `t` that starts at `from`: children are ticked
/// while they return `t`, and the later ones are reset (`active`) or left
/// alone.
pub open spec fn run_rel<L>(x: Seq<Node<L>>, y: Seq<Node<L>>, from: int, t: Status, active: bool) -> bool {
    let n = x.len() as int;
    let k = first_other(statuses(y), from, t);
    let e = if k < n { k + 1 } else { n };
    &&& same_between(x, y, 0, from)
    &&& ticked_between(x, y, from, e)
    &&& (if active { reset_between(x, y, e, n) } else { same_between(x, y, e, n) })
}

proof fn lemma_det_run<L>(
    xa: Seq<Node<L>>,
    xb: Seq<Node<L>>,
    ya: Seq<Node<L>>,
    yb: Seq<Node<L>>,
    from: int,
    t: Status,
    active: bool,
)
    requires
        xa.len() == xb.len(),
        0 <= from <= xa.len(),
        forall|i: int| 0 <= i < xa.len() ==> Node::same_state(#[trigger] xa[i], xb[i]),
        forall|i: int| 0 <= i < xa.len() ==> det_at(#[trigger] xa[i], xb[i]),
        forall|i: int| 0 <= i < xa.len() ==> Node::same_responses(#[trigger] ya[i], yb[i]),
        run_rel(xa, ya, from, t, active),
        run_rel(xb, yb, from, t, active),
    ensures
        first_other(statuses(ya), from, t) == first_other(statuses(yb), from, t),
        forall|i: int| 0 <= i < xa.len() ==> Node::same_state(#[trigger] ya[i], yb[i]),
{
    let n = xa.len() as int;
    let sa = statuses(ya);
    let sb = statuses(yb);
    let ka = first_other(sa, from, t);
    let kb = first_other(sb, from, t);
    lemma_first_other_bounds(sa, from, t);
    lemma_first_other_bounds(sb, from, t);
    if ka < kb {
        assert(Node::tick_rel(xa[ka], ya[ka], ya[ka].status()));
        assert(Node::tick_rel(xb[ka], yb[ka], yb[ka].status()));
        assert(Node::same_state(ya[ka], yb[ka]));
        assert(sa[ka] == ya[ka].status());
        assert(sb[ka] == yb[ka].status());
        assert(false);
    }
    if kb < ka {
        assert(Node::tick_rel(xa[kb], ya[kb], ya[kb].status()));
        assert(Node::tick_rel(xb[kb], yb[kb], yb[kb].status()));
        assert(Node::same_state(ya[kb], yb[kb]));
        assert(sa[kb] == ya[kb].status());
        assert(sb[kb] == yb[kb].status());
        assert(false);
    }
    let e = if ka < n { ka + 1 } else { n };
    assert forall|i: int| 0 <= i < n implies Node::same_state(#[trigger] ya[i], yb[i]) by {
        if from <= i < e {
            assert(Node::tick_rel(xa[i], ya[i], ya[i].status()));
            assert(Node::tick_rel(xb[i], yb[i], yb[i].status()));
        } else if active && e <= i {
            lemma_state_shape(xa[i], xb[i]);
            lemma_reset_shape(xa[i], ya[i]);
            lemma_reset_shape(xb[i], yb[i]);
            lemma_shape_sym(xa[i], ya[i]);
            lemma_shape_trans(ya[i], xa[i], xb[i]);
            lemma_shape_trans(ya[i], xb[i], yb[i]);
            lemma_initial_same_state(ya[i], yb[i]);
        } else {
            assert(ya[i] == xa[i]);
            assert(yb[i] == xb[i]);
        }
    }
}

/// Ticking two trees in the same state gives trees in the same state, and
/// the same result, whenever their leaves answer alike.
pub proof fn lemma_tick_det<L>(a: Node<L>, b: Node<L>)
    requires
        Node::same_state(a, b),
    ensures
        det_at(a, b),
    decreases a,
{
    a.lemma_children_decrease();
    let n = a.children_of().len();
    assert forall|i: int| 0 <= i < n implies det_at(
        #[trigger] a.children_of()[i],
        b.children_of()[i],
    ) by {
        lemma_tick_det(a.children_of()[i], b.children_of()[i]);
    }
    assert forall|a2: Node<L>, b2: Node<L>|
        #![trigger Node::tick_rel(a, a2, a2.status()), Node::tick_rel(b, b2, b2.status())]
        Node::tick_rel(a, a2, a2.status()) && Node::tick_rel(b, b2, b2.status())
            && Node::same_responses(a2, b2) implies Node::same_state(a2, b2) by {
        match (a.kind(), b.kind(), a2.kind(), b2.kind()) {
            (Kind::Sequence(x), Kind::Sequence(y), Kind::Sequence(x2), Kind::Sequence(y2)) => {
                if x.finished() {
                    assert(x2 == x && y2 == y);
                } else {
                    lemma_det_run(
                        x.children(),
                        y.children(),
                        x2.children(),
                        y2.children(),
                        x.cursor(),
                        Status::Succeeded,
                        false,
                    );
                    let k = first_other(statuses(x2.children()), x.cursor(), Status::Succeeded);
                    lemma_first_other_bounds(statuses(x2.children()), x.cursor(), Status::Succeeded);
                    if k < n {
                        assert(Node::same_state(x2.children()[k], y2.children()[k]));
                    }
                }
            },
            (Kind::Selector(x), Kind::Selector(y), Kind::Selector(x2), Kind::Selector(y2)) => {
                if x.finished() {
                    assert(x2 == x && y2 == y);
                } else {
                    lemma_det_run(
                        x.children(),
                        y.children(),
                        x2.children(),
                        y2.children(),
                        x.cursor(),
                        Status::Failed,
                        false,
                    );
                    let k = first_other(statuses(x2.children()), x.cursor(), Status::Failed);
                    lemma_first_other_bounds(statuses(x2.children()), x.cursor(), Status::Failed);
                    if k < n {
                        assert(Node::same_state(x2.children()[k], y2.children()[k]));
                    }
                }
            },
            (
                Kind::ActiveSequence(x),
                Kind::ActiveSequence(y),
                Kind::ActiveSequence(x2),
                Kind::ActiveSequence(y2),
            ) => {
                lemma_det_run(
                    x.children(),
                    y.children(),
                    x2.children(),
                    y2.children(),
                    0,
                    Status::Succeeded,
                    true,
                );
                let k = first_other(statuses(x2.children()), 0, Status::Succeeded);
                lemma_first_other_bounds(statuses(x2.children()), 0, Status::Succeeded);
                if k < n {
                    assert(Node::same_state(x2.children()[k], y2.children()[k]));
                }
            },
            (
                Kind::ActiveSelector(x),
                Kind::ActiveSelector(y),
                Kind::ActiveSelector(x2),
                Kind::ActiveSelector(y2),
            ) => {
                lemma_det_run(
                    x.children(),
                    y.children(),
                    x2.children(),
                    y2.children(),
                    0,
                    Status::Failed,
                    true,
                );
                let k = first_other(statuses(x2.children()), 0, Status::Failed);
                lemma_first_other_bounds(statuses(x2.children()), 0, Status::Failed);
                if k < n {
                    assert(Node::same_state(x2.children()[k], y2.children()[k]));
                }
            },
            (Kind::Parallel(x), Kind::Parallel(y), Kind::Parallel(x2), Kind::Parallel(y2)) => {
                assert forall|i: int| 0 <= i < n implies Node::same_state(
                    #[trigger] x2.children()[i],
                    y2.children()[i],
                ) by {
                    assert(Node::tick_rel(x.children()[i], x2.children()[i], x2.children()[i].status()));
                    assert(Node::tick_rel(y.children()[i], y2.children()[i], y2.children()[i].status()));
                    assert(det_at(x.children()[i], y.children()[i]));
                }
                assert(statuses(x2.children()) =~= statuses(y2.children()));
            },
            _ => {},
        }
    }
}

/// A run of ticks keeps the shape of the tree.
proof fn lemma_run_keeps_shape<L>(first: Seq<Node<L>>, out1: Seq<Status>, j: int)
    requires
        first.len() == out1.len() + 1,
        0 <= j <= out1.len(),
        forall|i: int|
            0 <= i < out1.len() ==> Node::tick_rel(#[trigger] first[i], first[i + 1], out1[i]),
    ensures
        Node::same_shape(first[0], first[j]),
    decreases j,
{
    if j == 0 {
        lemma_shape_refl(first[0]);
    } else {
        lemma_run_keeps_shape(first, out1, j - 1);
        lemma_tick_shape(first[j - 1], first[j], out1[j - 1]);
        lemma_shape_trans(first[0], first[j - 1], first[j]);
    }
}

/// Two runs from the same state whose leaves answer alike stay in the same
/// state and return the same results.
proof fn lemma_replay_prefix<L>(
    first: Seq<Node<L>>,
    out1: Seq<Status>,
    second: Seq<Node<L>>,
    out2: Seq<Status>,
    k: int,
)
    requires
        first.len() == out1.len() + 1,
        second.len() == out2.len() + 1,
        out2.len() <= out1.len(),
        0 <= k <= out2.len(),
        Node::same_state(first[0], second[0]),
        forall|i: int|
            0 <= i < out1.len() ==> Node::tick_rel(#[trigger] first[i], first[i + 1], out1[i]),
        forall|i: int|
            0 <= i < out2.len() ==> Node::tick_rel(#[trigger] second[i], second[i + 1], out2[i]),
        forall|i: int|
            0 < i <= out2.len() ==> Node::same_responses(#[trigger] first[i], second[i]),
    ensures
        Node::same_state(first[k], second[k]),
        forall|i: int| 0 <= i < k ==> out2[i] == out1[i],
    decreases k,
{
    if k > 0 {
        lemma_replay_prefix(first, out1, second, out2, k - 1);
        lemma_tick_det(first[k - 1], second[k - 1]);
        assert(Node::tick_rel(first[k - 1], first[k], out1[k - 1]));
        assert(Node::tick_rel(second[k - 1], second[k], out2[k - 1]));
        assert(Node::same_responses(first[k], second[k]));
    }
}

/// A reset tree replays its first run: when its leaves answer as they did
/// the first time the tree ran from `Initialized`, every tick after the reset
/// returns what the tick at the same position returned then.
///
/// `first` holds the states of the first run (`first[0]` as built, each
/// next state after one tick that returned the matching entry of `out1`);
/// `second[0]` is the last of those states after a reset, and `second` goes
/// on in the same way with the results `out2`.
pub proof fn lemma_reset_replays<L>(
    first: Seq<Node<L>>,
    out1: Seq<Status>,
    second: Seq<Node<L>>,
    out2: Seq<Status>,
)
    requires
        first.len() == out1.len() + 1,
        second.len() == out2.len() + 1,
        out2.len() <= out1.len(),
        first[0].is_initial(),
        forall|i: int|
            0 <= i < out1.len() ==> Node::tick_rel(#[trigger] first[i], first[i + 1], out1[i]),
        Node::reset_rel(first.last(), second[0]),
        forall|i: int|
            0 <= i < out2.len() ==> Node::tick_rel(#[trigger] second[i], second[i + 1], out2[i]),
        forall|i: int|
            0 < i <= out2.len() ==> Node::same_responses(#[trigger] first[i], second[i]),
    ensures
        out2 == out1.subrange(0, out2.len() as int),
{
    let m = out1.len() as int;
    lemma_run_keeps_shape(first, out1, m);
    assert(first[m] == first.last());
    lemma_reset_shape(first.last(), second[0]);
    lemma_shape_trans(first[0], first.last(), second[0]);
    lemma_initial_same_state(first[0], second[0]);
    let p = out2.len() as int;
    lemma_replay_prefix(first, out1, second, out2, p);
    assert(out2 =~= out1.subrange(0, p));
}

} // verus!
