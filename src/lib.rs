//! An observable state container: one value that notifies its subscribed
//! callbacks whenever it is replaced by an unequal value.

pub mod state;

pub use state::{effect, use_state, LockError, SignalType, StateModel, StateObject};
