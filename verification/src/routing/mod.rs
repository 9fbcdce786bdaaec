//! Where incoming messages go: calls to the handler of their object path, signals to the queue
//! of the most specific rule that they match.
pub mod hierarchy;
pub mod queue;
pub mod replies;
pub mod rule_set;
pub mod rules;

pub use hierarchy::{CallAction, CallHierarchy};
pub use queue::MsgQueue;
pub use rule_set::{queue_sig, RuleSet};
pub use rules::Match;
