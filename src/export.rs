//! A flat description of a tree's topology for monitoring tools: one message
//! per node, in preorder, each naming its children by their ids.
use vstd::prelude::*;

use crate::node::{Leaf, Node, kind_label};

verus! {

/// The description of one node. A node's id is its position in preorder.
pub struct NodeMsg {
    /// The node's id.
    pub id: usize,
    /// The node's label.
    pub label: &'static str,
    /// The ids of the node's children, in order.
    pub children: Vec<usize>,
}

/// What a message says of the topology: the id and the children's ids.
pub open spec fn msg_view(m: NodeMsg) -> (int, Seq<int>) {
    (m.id as int, m.children@.map_values(|c: usize| c as int))
}

/// The number of nodes in the tree `n`.
pub open spec fn size<L>(n: Node<L>) -> nat
    decreases n,
{
    proof {
        n.lemma_children_decrease();
    }
    if n.kind() is Leaf {
        1
    } else {
        1 + sizes(n.children_of())
    }
}

/// The number of nodes in the trees `s`.
pub open spec fn sizes<L>(s: Seq<Node<L>>) -> nat
    decreases s,
{
    if s.len() == 0 {
        0
    } else {
        proof {
            assert(decreases_to!(s => s.drop_last()));
        }
        sizes(s.drop_last()) + size(s.last())
    }
}

/// The ids of the roots of the trees `s` laid out in preorder from `base`.
pub open spec fn child_ids<L>(s: Seq<Node<L>>, base: int) -> Seq<int>
    decreases s.len(),
{
    if s.len() == 0 {
        Seq::empty()
    } else {
        child_ids(s.drop_last(), base).push(base + sizes(s.drop_last()))
    }
}

/// The messages of the tree `n` laid out in preorder from `base`.
pub open spec fn export<L>(n: Node<L>, base: int) -> Seq<(int, Seq<int>)>
    decreases n,
{
    proof {
        n.lemma_children_decrease();
    }
    if n.kind() is Leaf {
        seq![(base, Seq::empty())]
    } else {
        seq![(base, child_ids(n.children_of(), base + 1))] + export_list(n.children_of(), base + 1)
    }
}

/// The messages of the trees `s` laid out one after another in preorder
/// from `base`.
pub open spec fn export_list<L>(s: Seq<Node<L>>, base: int) -> Seq<(int, Seq<int>)>
    decreases s,
{
    if s.len() == 0 {
        Seq::empty()
    } else {
        proof {
            assert(decreases_to!(s => s.drop_last()));
        }
        export_list(s.drop_last(), base) + export(s.last(), base + sizes(s.drop_last()))
    }
}

/// The nodes of the tree `n` in preorder.
pub open spec fn preorder<L>(n: Node<L>) -> Seq<Node<L>>
    decreases n,
{
    proof {
        n.lemma_children_decrease();
    }
    if n.kind() is Leaf {
        seq![n]
    } else {
        seq![n] + preorder_list(n.children_of())
    }
}

/// The nodes of the trees `s` in preorder, one tree after another.
pub open spec fn preorder_list<L>(s: Seq<Node<L>>) -> Seq<Node<L>>
    decreases s,
{
    if s.len() == 0 {
        Seq::empty()
    } else {
        proof {
            assert(decreases_to!(s => s.drop_last()));
        }
        preorder_list(s.drop_last()) + preorder(s.last())
    }
}

/// The message `m` carries the label of the node `n` (a leaf's label is
/// whatever the leaf reports).
pub open spec fn labels_node<L>(m: NodeMsg, n: Node<L>) -> bool {
    !(n.kind() is Leaf) ==> m.label@ == kind_label(n.kind())@
}

/// A tree has one message per node.
pub proof fn lemma_export_len<L>(n: Node<L>, base: int)
    ensures
        export(n, base).len() == size(n),
        preorder(n).len() == size(n),
    decreases n, 1int,
{
    n.lemma_children_decrease();
    if !(n.kind() is Leaf) {
        lemma_export_list_len(n.children_of(), base + 1);
    }
}

/// A list of trees has one message per node.
pub proof fn lemma_export_list_len<L>(s: Seq<Node<L>>, base: int)
    ensures
        export_list(s, base).len() == sizes(s),
        preorder_list(s).len() == sizes(s),
    decreases s, 0int,
{
    if s.len() > 0 {
        assert(decreases_to!(s => s.drop_last()));
        lemma_export_list_len(s.drop_last(), base);
        lemma_export_len(s.last(), base + sizes(s.drop_last()));
    }
}

impl<L: Leaf> Node<L> {
    /// Appends the messages of this subtree to `out`, in preorder, and
    /// returns this node's id (its position in `out`).
    pub fn collect_messages(&self, out: &mut Vec<NodeMsg>) -> (id: usize)
        ensures
            id == old(out).len(),
            final(out)@.map_values(|m: NodeMsg| msg_view(m)) == old(out)@.map_values(
                |m: NodeMsg| msg_view(m),
            ) + export(*self, old(out).len() as int),
            forall|j: int| 0 <= j < old(out).len() ==> final(out)@[j] == old(out)@[j],
            final(out).len() == old(out).len() + preorder(*self).len(),
            forall|j: int|
                0 <= j < preorder(*self).len() ==> labels_node(
                    #[trigger] final(out)@[old(out).len() + j],
                    preorder(*self)[j],
                ),
        decreases *self,
    {
        proof {
            self.lemma_children_decrease();
        }
        let id = out.len();
        let label = self.label();
        out.push(NodeMsg { id, label, children: Vec::new() });
        let kids = self.children();
        let ghost s = kids@;
        let ghost before = old(out)@.map_values(|m: NodeMsg| msg_view(m));
        let mut ids: Vec<usize> = Vec::new();
        let mut i: usize = 0;
        while i < kids.len()
            invariant
                s == kids@,
                s == self.children_of(),
                0 <= i <= s.len(),
                out@.len() == old(out)@.len() + 1 + sizes(s.subrange(0, i as int)),
                out@.map_values(|m: NodeMsg| msg_view(m)).subrange(0, id as int) == before,
                out@.map_values(|m: NodeMsg| msg_view(m)).subrange(id + 1, out@.len() as int)
                    == export_list(s.subrange(0, i as int), id + 1),
                out@.len() > id,
                id == old(out)@.len(),
                ids@.map_values(|c: usize| c as int) == child_ids(s.subrange(0, i as int), id + 1),
                forall|j: int| 0 <= j < s.len() ==> decreases_to!(*self => #[trigger] s[j]),
                forall|j: int| 0 <= j < id ==> out@[j] == old(out)@[j],
                out@[id as int].label == label,
                preorder_list(s.subrange(0, i as int)).len() == sizes(s.subrange(0, i as int)),
                forall|j: int|
                    0 <= j < preorder_list(s.subrange(0, i as int)).len() ==> labels_node(
                        #[trigger] out@[id + 1 + j],
                        preorder_list(s.subrange(0, i as int))[j],
                    ),
            decreases s.len() - i,
        {
            let ghost pv = out@.map_values(|m: NodeMsg| msg_view(m));
            let ghost prev = out@;
            let ghost pids = ids@.map_values(|c: usize| c as int);
            let cid = kids[i].collect_messages(out);
            ids.push(cid);
            proof {
                let nv = out@.map_values(|m: NodeMsg| msg_view(m));
                let t = s.subrange(0, i + 1);
                let d = s.subrange(0, i as int);
                assert(t.len() == i + 1);
                assert(t.drop_last() =~= d);
                assert(t.last() == s[i as int]);
                lemma_export_len(s[i as int], cid as int);
                assert(nv.subrange(0, id as int) =~= pv.subrange(0, id as int));
                assert(nv.subrange(id + 1, nv.len() as int) =~= pv.subrange(id + 1, pv.len() as int)
                    + export(s[i as int], cid as int));
                assert(sizes(t) == sizes(d) + size(s[i as int]));
                assert(export_list(t, id + 1) == export_list(d, id + 1) + export(
                    s[i as int],
                    id + 1 + sizes(d),
                ));
                assert(child_ids(t, id + 1) == child_ids(d, id + 1).push(id + 1 + sizes(d)));
                assert(ids@.map_values(|c: usize| c as int) =~= pids.push(cid as int));
                lemma_export_list_len(d, id + 1);
                lemma_export_list_len(t, id + 1);
                let pd = preorder_list(d);
                let pt = preorder_list(t);
                assert(pt == pd + preorder(s[i as int]));
                assert forall|j: int| 0 <= j < pt.len() implies labels_node(
                    #[trigger] out@[id + 1 + j],
                    pt[j],
                ) by {
                    assert(prev.len() == id + 1 + pd.len());
                    if j < pd.len() {
                        assert(out@[id + 1 + j] == prev[id + 1 + j]);
                        assert(pt[j] == pd[j]);
                    } else {
                        let q = j - pd.len();
                        assert(out@[prev.len() + q] == out@[id + 1 + j]);
                        assert(pt[j] == preorder(s[i as int])[q]);
                    }
                }
            }
            i = i + 1;
        }
        let ghost before_set = out@;
        out.set(id, NodeMsg { id, label, children: ids });
        proof {
            assert(s.subrange(0, s.len() as int) =~= s);
            lemma_export_len(*self, id as int);
            let p = preorder(*self);
            if !(self.kind() is Leaf) {
                assert(p == seq![*self] + preorder_list(s));
            }
            assert forall|j: int| 0 <= j < p.len() implies labels_node(
                #[trigger] out@[id + j],
                p[j],
            ) by {
                if j > 0 {
                    assert(p[j] == preorder_list(s)[j - 1]);
                    assert(out@[id + j] == before_set[id + 1 + (j - 1)]);
                } else {
                    assert(p[0] == *self);
                }
            }
        }
        id
    }
}

} // verus!
