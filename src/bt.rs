//! The tree driver: the root node together with the shared world state.
use std::sync::Arc;

use vstd::prelude::*;

use crate::export::{NodeMsg, export, labels_node, msg_view, preorder};
use crate::node::{Leaf, Node};
use crate::status::Status;

verus! {

/// A behavior tree: a root node and the world state that every tick of the
/// tree hands to its leaves.
pub struct BehaviorTree<L: Leaf> {
    world: Arc<L::World>,
    root: Box<Node<L>>,
}

impl<L: Leaf> BehaviorTree<L> {
    /// The root node.
    pub closed spec fn root(&self) -> Node<L> {
        *self.root
    }

    /// The shared world state.
    pub closed spec fn world(&self) -> L::World {
        *self.world
    }

    /// Creates a new behavior tree with the given world state and root node.
    pub fn new(state: L::World, root: Box<Node<L>>) -> (t: Self)
        requires
            root.wf(),
        ensures
            t.root() == *root,
            t.world() == state,
    {
        BehaviorTree { world: Arc::new(state), root }
    }

    /// Creates a new behavior tree whose world state the caller keeps a
    /// handle to.
    pub fn with_shared_state(state: Arc<L::World>, root: Box<Node<L>>) -> (t: Self)
        requires
            root.wf(),
        ensures
            t.root() == *root,
            t.world() == *state,
    {
        BehaviorTree { world: state, root }
    }

    /// Ticks the tree a single time.
    pub fn tick(&mut self) -> (r: Status)
        requires
            old(self).root().wf(),
        ensures
            final(self).root().wf(),
            final(self).world() == old(self).world(),
            Node::tick_rel(old(self).root(), final(self).root(), r),
    {
        let world: &L::World = &self.world;
        self.root.tick(world)
    }

    /// Resets the tree so that it can be run again.
    pub fn reset(&mut self)
        requires
            old(self).root().wf(),
        ensures
            final(self).root().wf(),
            final(self).root().is_initial(),
            final(self).world() == old(self).world(),
            Node::reset_rel(old(self).root(), final(self).root()),
    {
        self.root.reset()
    }

    /// Describes the tree's topology: one message per node, in preorder, the
    /// root first with id 0.
    pub fn to_message(&self) -> (msgs: Vec<NodeMsg>)
        ensures
            msgs@.map_values(|m: NodeMsg| msg_view(m)) == export(self.root(), 0),
            msgs.len() == preorder(self.root()).len(),
            forall|j: int|
                0 <= j < msgs.len() ==> labels_node(#[trigger] msgs@[j], preorder(self.root())[j]),
    {
        let mut msgs: Vec<NodeMsg> = Vec::new();
        self.root.collect_messages(&mut msgs);
        proof {
            assert forall|j: int| 0 <= j < msgs.len() implies labels_node(
                #[trigger] msgs@[j],
                preorder(self.root())[j],
            ) by {
                assert(msgs@[0 + j] == msgs@[j]);
            }
            assert(Seq::<NodeMsg>::empty().map_values(|m: NodeMsg| msg_view(m)) =~= Seq::empty());
        }
        msgs
    }

    /// The root node.
    pub fn root_node(&self) -> (r: &Node<L>)
        ensures
            *r == self.root(),
    {
        &self.root
    }
}

} // verus!
