//! A behavior-tree execution engine.
//!
//! A tree is built from [`Node`]s. Composite nodes (sequences, selectors and
//! the parallel node) own their children and decide which of them to tick;
//! leaves are user-supplied values implementing [`Leaf`]. Every node records
//! the status its last tick returned.
pub mod status;
pub mod node;
pub mod sequence;
pub mod selector;
pub mod parallel;
pub mod bt;
pub mod export;
pub mod laws;
pub mod replay;

pub use status::Status;
pub use node::{Leaf, Node, Kind};
pub use sequence::{Sequence, ActiveSequence};
pub use selector::{Selector, ActiveSelector};
pub use parallel::{Parallel, ThresholdError};
pub use bt::BehaviorTree;
pub use export::NodeMsg;
