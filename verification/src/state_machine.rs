//! The application's state machine, which the committed data drive.
use vstd::prelude::*;

verus! {

/// Implemented by the application: committed data are applied to it in log order.
pub trait StateMachine: std::fmt::Debug + Send + 'static {
    /// Applies the data of one committed entry.
    fn apply(&mut self, data: &Vec<u8>);

    /// Writes a snapshot of the state to the given file.
    fn take_snapshot(&mut self, snapshot_filepath: String);

    /// Restores the state from the snapshot in the given file.
    fn restore_snapshot(&mut self, snapshot_filepath: String);
}

} // verus!
