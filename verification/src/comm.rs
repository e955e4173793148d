//! The request/response protocol and the manager that serves it.

pub mod urcp;
pub mod manager;
pub mod bytes;
pub mod frame;
pub mod domain;
pub mod board;
pub mod ledger;
pub mod text;
