//! A finite-state-machine engine: named states, named conditional transitions
//! and the trigger pipeline that moves a bound model from state to state.
//!
//! Every executable function is verified against a contract. The contracts
//! speak of a mathematical record of what the engine did (see [`trace`]): the
//! callbacks it invoked, the guards it asked, and the state changes it made,
//! in order, each with what the host replied.

pub mod support;
pub mod error;
pub mod trace;
pub mod model;
pub mod sight;
pub mod host;
pub mod event;
pub mod elements;
pub mod machine;
pub mod registry;
pub mod states;
pub mod ordered;
pub mod dispatch;
pub mod query;
pub mod laws;
pub mod completeness;
