//! The in-memory order book and the two stores it is built on.

pub mod bump;
pub mod pool;
pub mod meta;
pub mod model;
pub mod book;
