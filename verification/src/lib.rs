//! A two-outcome order-matching exchange: an arena-backed order book with
//! price-time priority, a manager for several books over one shared order
//! pool, and the fixed-width wire frames that expose them as a service.

pub mod book;
pub mod comm;
