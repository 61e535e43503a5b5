//! An in-memory key/value server core speaking RESP2: a resumable frame codec,
//! a command parser, a store whose entries may carry deadlines, and the
//! scheduler that reaps expired entries.

pub mod number;
pub mod resp;
pub mod command;
pub mod server;
pub mod connection;
