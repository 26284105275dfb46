//! An in-memory key-value server core: a length-prefixed wire-protocol codec,
//! an expiring store, and the command dispatcher that joins them.
pub mod value;
pub mod decode;
pub mod store;
pub mod command;
pub mod session;
