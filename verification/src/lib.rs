//! Core state machines for a real-time collaboration client: connection
//! lifecycle, request/response correlation, ordered channel message delivery,
//! and versioned worktree synchronization.

pub mod channel;
pub mod dispatcher;
pub mod protocol;
pub mod session;
pub mod worktree;
