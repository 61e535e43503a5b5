//! The server's state: the store of keys and lists, and the queue of pending
//! expirations that the scheduler works through.

pub mod expiry;
pub mod types;
