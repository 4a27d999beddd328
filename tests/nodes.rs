use std::sync::atomic::AtomicBool;
use std::sync::Arc;

use aspen::{ActiveSelector, ActiveSequence, Leaf, Node, Parallel, Selector, Sequence, Status};

/// A leaf that must be ticked before it is dropped, or must never be ticked.
struct Probe {
    status: Option<Status>,
    ticked: bool,
}

impl Leaf for Probe {
    type World = AtomicBool;

    fn tick(&mut self, _world: &AtomicBool) -> Status {
        self.ticked = true;
        match self.status {
            Some(s) => s,
            None => panic!("a node that must not be ticked was ticked"),
        }
    }

    fn reset(&mut self) {}

    fn label(&self) -> &'static str {
        "Probe"
    }
}

impl Drop for Probe {
    fn drop(&mut self) {
        if self.status.is_some() {
            assert!(self.ticked, "a node that had to be ticked was not ticked");
        }
    }
}

fn yes_tick(status: Status) -> Node<Probe> {
    Node::leaf(Probe { status: Some(status), ticked: false })
}

fn no_tick() -> Node<Probe> {
    Node::leaf(Probe { status: None, ticked: false })
}

fn six_children() -> Vec<Node<Probe>> {
    vec![
        yes_tick(Status::Succeeded),
        yes_tick(Status::Succeeded),
        yes_tick(Status::Running),
        yes_tick(Status::Running),
        yes_tick(Status::Failed),
        yes_tick(Status::Failed),
    ]
}

#[test]
fn success() {
    let world = Arc::new(AtomicBool::new(true));
    let mut parallel = Parallel::new(six_children(), 2).unwrap();
    let status = parallel.tick(&world);
    drop(parallel);
    assert_eq!(status, Status::Succeeded);
}

#[test]
fn failure() {
    let world = Arc::new(AtomicBool::new(true));
    let mut parallel = Parallel::new(six_children(), 5).unwrap();
    let status = parallel.tick(&world);
    drop(parallel);
    assert_eq!(status, Status::Failed);
}

#[test]
fn running() {
    let world = Arc::new(AtomicBool::new(true));
    let mut parallel = Parallel::new(six_children(), 3).unwrap();
    let status = parallel.tick(&world);
    drop(parallel);
    assert_eq!(status, Status::Running);
}

#[test]
fn selector_check_running() {
    let world = AtomicBool::new(true);
    let children = vec![yes_tick(Status::Failed), yes_tick(Status::Running), no_tick()];
    let mut sel = Selector::new(children);
    let status = sel.tick(&world);
    drop(sel);
    assert_eq!(status, Status::Running);
}

#[test]
fn selector_check_success() {
    let world = AtomicBool::new(true);
    let children = vec![yes_tick(Status::Failed), yes_tick(Status::Succeeded), no_tick()];
    let mut sel = Selector::new(children);
    let status = sel.tick(&world);
    drop(sel);
    assert_eq!(status, Status::Succeeded);
}

#[test]
fn selector_check_fail() {
    let world = AtomicBool::new(true);
    let children = vec![yes_tick(Status::Failed), yes_tick(Status::Failed)];
    let mut sel = Selector::new(children);
    let status = sel.tick(&world);
    drop(sel);
    assert_eq!(status, Status::Failed);
}

#[test]
fn selector_check_active_running() {
    let world = AtomicBool::new(true);
    let children = vec![yes_tick(Status::Failed), yes_tick(Status::Running), no_tick()];
    let mut sel = ActiveSelector::new(children);
    let status = sel.tick(&world);
    drop(sel);
    assert_eq!(status, Status::Running);
}

#[test]
fn selector_check_active_success() {
    let world = AtomicBool::new(true);
    let children = vec![yes_tick(Status::Failed), yes_tick(Status::Succeeded), no_tick()];
    let mut sel = ActiveSelector::new(children);
    let status = sel.tick(&world);
    drop(sel);
    assert_eq!(status, Status::Succeeded);
}

#[test]
fn selector_check_active_fail() {
    let world = AtomicBool::new(true);
    let children = vec![yes_tick(Status::Failed), yes_tick(Status::Failed)];
    let mut sel = ActiveSelector::new(children);
    let status = sel.tick(&world);
    drop(sel);
    assert_eq!(status, Status::Failed);
}

#[test]
fn sequence_check_running() {
    let world = AtomicBool::new(true);
    let children = vec![yes_tick(Status::Succeeded), yes_tick(Status::Running), no_tick()];
    let mut seq = Sequence::new(children);
    let status = seq.tick(&world);
    drop(seq);
    assert_eq!(status, Status::Running);
}

#[test]
fn sequence_check_success() {
    let world = AtomicBool::new(true);
    let children = vec![yes_tick(Status::Succeeded), yes_tick(Status::Succeeded)];
    let mut seq = Sequence::new(children);
    let status = seq.tick(&world);
    drop(seq);
    assert_eq!(status, Status::Succeeded);
}

#[test]
fn sequence_check_fail() {
    let world = AtomicBool::new(true);
    let children = vec![yes_tick(Status::Succeeded), yes_tick(Status::Failed), no_tick()];
    let mut seq = Sequence::new(children);
    let status = seq.tick(&world);
    drop(seq);
    assert_eq!(status, Status::Failed);
}

#[test]
fn sequence_check_active_running() {
    let world = AtomicBool::new(true);
    let children = vec![yes_tick(Status::Succeeded), yes_tick(Status::Running), no_tick()];
    let mut seq = ActiveSequence::new(children);
    let status = seq.tick(&world);
    drop(seq);
    assert_eq!(status, Status::Running);
}

#[test]
fn sequence_check_active_success() {
    let world = AtomicBool::new(true);
    let children = vec![yes_tick(Status::Succeeded), yes_tick(Status::Succeeded)];
    let mut seq = ActiveSequence::new(children);
    let status = seq.tick(&world);
    drop(seq);
    assert_eq!(status, Status::Succeeded);
}

#[test]
fn sequence_check_active_fail() {
    let world = AtomicBool::new(true);
    let children = vec![yes_tick(Status::Succeeded), yes_tick(Status::Failed), no_tick()];
    let mut seq = ActiveSequence::new(children);
    let status = seq.tick(&world);
    drop(seq);
    assert_eq!(status, Status::Failed);
}
