use std::cell::Cell;
use std::rc::Rc;
use std::sync::Arc;

use aspen::{
    ActiveSelector, ActiveSequence, BehaviorTree, Leaf, Node, NodeMsg, Parallel, Selector,
    Sequence, Status, ThresholdError,
};

/// A leaf that plays back a script of statuses, one per tick, and counts its
/// ticks and resets. A reset starts the script over.
struct Scripted {
    script: Vec<Status>,
    at: usize,
    ticks: Rc<Cell<usize>>,
    resets: Rc<Cell<usize>>,
}

impl Leaf for Scripted {
    type World = ();

    fn tick(&mut self, _world: &()) -> Status {
        self.ticks.set(self.ticks.get() + 1);
        let s = self.script[self.at.min(self.script.len() - 1)];
        self.at += 1;
        s
    }

    fn reset(&mut self) {
        self.resets.set(self.resets.get() + 1);
        self.at = 0;
    }

    fn label(&self) -> &'static str {
        "Scripted"
    }
}

struct Counters {
    ticks: Rc<Cell<usize>>,
    resets: Rc<Cell<usize>>,
}

fn scripted(script: &[Status]) -> (Node<Scripted>, Counters) {
    let ticks = Rc::new(Cell::new(0));
    let resets = Rc::new(Cell::new(0));
    let leaf = Scripted {
        script: script.to_vec(),
        at: 0,
        ticks: ticks.clone(),
        resets: resets.clone(),
    };
    (Node::leaf(leaf), Counters { ticks, resets })
}

fn always(s: Status) -> (Node<Scripted>, Counters) {
    scripted(&[s])
}

use Status::{Failed, Initialized, Running, Succeeded};

#[test]
fn is_done_only_for_terminal_statuses() {
    assert!(Succeeded.is_done());
    assert!(Failed.is_done());
    assert!(!Running.is_done());
    assert!(!Initialized.is_done());
}

#[test]
fn sequence_resumes_at_running_child() {
    let (a, ca) = always(Succeeded);
    let (b, cb) = always(Succeeded);
    let (c, cc) = scripted(&[Running, Succeeded]);
    let (d, cd) = always(Running);
    let mut seq = Sequence::new(vec![a, b, c, d]);
    assert_eq!(seq.tick(&()), Running);
    assert_eq!((ca.ticks.get(), cb.ticks.get(), cc.ticks.get(), cd.ticks.get()), (1, 1, 1, 0));
    assert_eq!(seq.tick(&()), Running);
    assert_eq!((ca.ticks.get(), cb.ticks.get(), cc.ticks.get(), cd.ticks.get()), (1, 1, 2, 1));
}

#[test]
fn sequence_never_ticks_children_after_running_one() {
    let (a, _ca) = always(Succeeded);
    let (b, _cb) = always(Running);
    let (c, cc) = always(Succeeded);
    let mut seq = Sequence::new(vec![a, b, c]);
    for _ in 0..3 {
        assert_eq!(seq.tick(&()), Running);
    }
    assert_eq!(cc.ticks.get(), 0);
}

#[test]
fn active_sequence_restarts_from_first_child() {
    let (a, ca) = scripted(&[Succeeded, Failed]);
    let (b, cb) = always(Running);
    let (c, cc) = always(Succeeded);
    let mut seq = ActiveSequence::new(vec![a, b, c]);
    assert_eq!(seq.tick(&()), Running);
    assert_eq!((ca.ticks.get(), cb.ticks.get(), cc.ticks.get()), (1, 1, 0));
    assert_eq!(cc.resets.get(), 1);
    assert_eq!(seq.tick(&()), Failed);
    assert_eq!((ca.ticks.get(), cb.ticks.get(), cc.ticks.get()), (2, 1, 0));
    assert_eq!((cb.resets.get(), cc.resets.get()), (1, 2));
    let children = seq.children();
    assert_eq!(children[1].get_status(), Initialized);
    assert_eq!(children[2].get_status(), Initialized);
    assert_eq!(children[0].get_status(), Failed);
}

#[test]
fn selector_stops_at_first_success() {
    let (a, ca) = always(Failed);
    let (b, cb) = always(Succeeded);
    let (c, cc) = always(Failed);
    let mut sel = Selector::new(vec![a, b, c]);
    assert_eq!(sel.tick(&()), Succeeded);
    assert_eq!((ca.ticks.get(), cb.ticks.get(), cc.ticks.get()), (1, 1, 0));
}

#[test]
fn finished_sequence_does_not_retick() {
    let (a, ca) = always(Succeeded);
    let (b, cb) = always(Succeeded);
    let mut seq = Sequence::new(vec![a, b]);
    assert_eq!(seq.tick(&()), Succeeded);
    assert_eq!(seq.tick(&()), Succeeded);
    assert_eq!((ca.ticks.get(), cb.ticks.get()), (1, 1));
}

#[test]
fn finished_selector_does_not_retick() {
    let (a, ca) = always(Failed);
    let (b, cb) = always(Failed);
    let mut sel = Selector::new(vec![a, b]);
    assert_eq!(sel.tick(&()), Failed);
    assert_eq!(sel.tick(&()), Failed);
    assert_eq!((ca.ticks.get(), cb.ticks.get()), (1, 1));
}

#[test]
fn finished_active_nodes_retick_from_start() {
    let (a, ca) = always(Succeeded);
    let mut seq = ActiveSequence::new(vec![a]);
    assert_eq!(seq.tick(&()), Succeeded);
    assert_eq!(seq.tick(&()), Succeeded);
    assert_eq!(ca.ticks.get(), 2);
    let (b, cb) = always(Failed);
    let mut sel = ActiveSelector::new(vec![b]);
    assert_eq!(sel.tick(&()), Failed);
    assert_eq!(sel.tick(&()), Failed);
    assert_eq!(cb.ticks.get(), 2);
}

#[test]
fn empty_composites() {
    assert_eq!(Sequence::<Scripted>::new(vec![]).tick(&()), Succeeded);
    assert_eq!(ActiveSequence::<Scripted>::new(vec![]).tick(&()), Succeeded);
    assert_eq!(Selector::<Scripted>::new(vec![]).tick(&()), Failed);
    assert_eq!(ActiveSelector::<Scripted>::new(vec![]).tick(&()), Failed);
    assert_eq!(Parallel::<Scripted>::new(vec![], 0).unwrap().tick(&()), Succeeded);
}

#[test]
fn parallel_reticks_finished_children() {
    let (a, ca) = always(Succeeded);
    let (b, cb) = always(Running);
    let mut par = Parallel::new(vec![a, b], 2).unwrap();
    assert_eq!(par.tick(&()), Running);
    assert_eq!(par.tick(&()), Running);
    assert_eq!((ca.ticks.get(), cb.ticks.get()), (2, 2));
}

#[test]
fn parallel_threshold_above_children_is_rejected() {
    let (a, _ca) = always(Succeeded);
    let err = Parallel::new(vec![a], 2).err().unwrap();
    assert_eq!(err, ThresholdError { required: 2, children: 1 });
}

#[test]
fn reset_replays_the_same_outputs() {
    let (a, _ca) = scripted(&[Running, Succeeded]);
    let (b, _cb) = scripted(&[Failed, Succeeded]);
    let (c, _cc) = scripted(&[Running, Running, Succeeded]);
    let inner = Selector::new(vec![b, c]);
    let mut root = Sequence::new(vec![a, inner]);
    let mut first = Vec::new();
    for _ in 0..5 {
        first.push(root.tick(&()));
    }
    root.reset();
    assert_eq!(root.get_status(), Initialized);
    let mut second = Vec::new();
    for _ in 0..5 {
        second.push(root.tick(&()));
    }
    assert_eq!(first, vec![Running, Running, Running, Succeeded, Succeeded]);
    assert_eq!(first, second);
}

#[test]
fn node_status_is_last_tick_result() {
    let (a, _ca) = scripted(&[Running, Failed]);
    let mut seq = Sequence::new(vec![a]);
    assert_eq!(seq.get_status(), Initialized);
    assert_eq!(seq.tick(&()), Running);
    assert_eq!(seq.get_status(), Running);
    assert_eq!(seq.tick(&()), Failed);
    assert_eq!(seq.get_status(), Failed);
}

#[test]
fn labels_and_children() {
    let (a, _ca) = always(Succeeded);
    let (b, _cb) = always(Succeeded);
    let leaf_label = a.label();
    assert_eq!(leaf_label, "Scripted");
    assert_eq!(a.children().len(), 0);
    let par = Parallel::new(vec![a, b], 1).unwrap();
    assert_eq!(par.label(), "Parallel");
    assert_eq!(par.children().len(), 2);
    assert_eq!(Sequence::<Scripted>::new(vec![]).label(), "Sequence");
    assert_eq!(ActiveSequence::<Scripted>::new(vec![]).label(), "ActiveSequence");
    assert_eq!(Selector::<Scripted>::new(vec![]).label(), "Selector");
    assert_eq!(ActiveSelector::<Scripted>::new(vec![]).label(), "ActiveSelector");
}

#[test]
fn tree_ticks_and_resets_root() {
    let (a, ca) = scripted(&[Running, Succeeded]);
    let mut tree = BehaviorTree::new((), Box::new(Sequence::new(vec![a])));
    assert_eq!(tree.tick(), Running);
    assert_eq!(tree.tick(), Succeeded);
    tree.reset();
    assert_eq!(ca.resets.get(), 1);
    assert_eq!(tree.root_node().get_status(), Initialized);
    assert_eq!(tree.tick(), Running);
}

#[test]
fn tree_with_shared_state() {
    let world = Arc::new(());
    let (a, _ca) = always(Failed);
    let mut tree = BehaviorTree::with_shared_state(world.clone(), Box::new(Selector::new(vec![a])));
    assert_eq!(tree.tick(), Failed);
    assert_eq!(Arc::strong_count(&world), 2);
}

#[test]
fn tree_message_lists_nodes_in_preorder() {
    let (a, _ca) = always(Succeeded);
    let (b, _cb) = always(Failed);
    let (c, _cc) = always(Running);
    let (d, _cd) = always(Succeeded);
    let inner = Selector::new(vec![b, c]);
    let tree = BehaviorTree::new((), Box::new(Sequence::new(vec![a, inner, d])));
    let msgs: Vec<NodeMsg> = tree.to_message();
    let ids: Vec<usize> = msgs.iter().map(|m| m.id).collect();
    assert_eq!(ids, vec![0, 1, 2, 3, 4, 5]);
    let labels: Vec<&str> = msgs.iter().map(|m| m.label).collect();
    assert_eq!(labels, vec!["Sequence", "Scripted", "Selector", "Scripted", "Scripted", "Scripted"]);
    assert_eq!(msgs[0].children, vec![1, 2, 5]);
    assert_eq!(msgs[1].children, Vec::<usize>::new());
    assert_eq!(msgs[2].children, vec![3, 4]);
    assert_eq!(msgs[5].children, Vec::<usize>::new());
}

#[test]
fn failed_sequence_stays_failed_until_reset() {
    let (a, ca) = always(Failed);
    let (b, cb) = always(Succeeded);
    let mut seq = Sequence::new(vec![a, b]);
    assert_eq!(seq.tick(&()), Failed);
    assert_eq!(seq.tick(&()), Failed);
    assert_eq!(seq.tick(&()), Failed);
    assert_eq!((ca.ticks.get(), cb.ticks.get()), (1, 0));
    seq.reset();
    assert_eq!(seq.tick(&()), Failed);
    assert_eq!((ca.ticks.get(), cb.ticks.get()), (2, 0));
}

#[test]
fn single_failing_child_sequence_never_succeeds() {
    let (a, ca) = always(Failed);
    let mut seq = Sequence::new(vec![a]);
    assert_eq!(seq.tick(&()), Failed);
    assert_eq!(seq.tick(&()), Failed);
    assert_eq!(ca.ticks.get(), 1);
}

#[test]
fn succeeded_selector_stays_succeeded_until_reset() {
    let (a, ca) = always(Failed);
    let (b, cb) = always(Succeeded);
    let (c, cc) = always(Failed);
    let mut sel = Selector::new(vec![a, b, c]);
    assert_eq!(sel.tick(&()), Succeeded);
    assert_eq!(sel.tick(&()), Succeeded);
    assert_eq!(sel.tick(&()), Succeeded);
    assert_eq!((ca.ticks.get(), cb.ticks.get(), cc.ticks.get()), (1, 1, 0));
    sel.reset();
    assert_eq!(sel.tick(&()), Succeeded);
    assert_eq!((ca.ticks.get(), cb.ticks.get(), cc.ticks.get()), (2, 2, 0));
}

#[test]
fn single_succeeding_child_selector_never_fails() {
    let (a, ca) = always(Succeeded);
    let mut sel = Selector::new(vec![a]);
    assert_eq!(sel.tick(&()), Succeeded);
    assert_eq!(sel.tick(&()), Succeeded);
    assert_eq!(ca.ticks.get(), 1);
}
