//! The records of the ledger and of the public interface that sits on top of
//! the engine.

use vstd::prelude::*;
use std::collections::BTreeMap;

verus! {

/// A user of the exchange and what they have to spend.
pub struct User {
    pub id: i32,
    pub sub: String,
    pub balance: i32,
}

/// A contract between the holder of one outcome and the holder of the other.
#[derive(Clone, Copy, Debug, PartialEq, Eq)]
pub struct Contract {
    pub book_id: i32,
    pub yes_holder: i32,
    pub no_holder: i32,
    pub qty: i32,
}

/// A resting order as the ledger records it against its user.
#[derive(Clone, Copy, Debug, PartialEq, Eq)]
pub struct UserOrder {
    pub id: i32,
    pub book_id: i32,
    pub price: i32,
    pub qty: i32,
    pub user_fk: i32,
}

/// A bare message.
pub struct GenericResponse {
    pub msg: String,
}

/// The resting quantities of every book, as sent to subscribers.
pub struct ApiViewResponse {
    pub typ: String,
    pub data: Vec<BTreeMap<i8, u64>>,
}

/// The resting quantities of one book by side.
pub struct ApiViewInner {
    pub yes: Vec<(i8, u64)>,
    pub no: Vec<(i8, u64)>,
}

/// The body of a fill as sent to subscribers.
#[derive(Clone, Copy, Debug, PartialEq, Eq)]
pub struct ApiExecuteInner {
    pub oid: usize,
    pub qty: u64,
}

/// A fill as sent to subscribers.
pub struct ApiExecuteResponse {
    pub typ: String,
    pub data: ApiExecuteInner,
}

/// The outcome of the two books at settlement.
#[derive(Clone, Copy, Debug, PartialEq, Eq)]
pub struct ApiResultResponse {
    pub top: bool,
    pub right: bool,
}

/// An order as a client submits it: a price in cents of the outcome it
/// wants, and whether that outcome is "yes".
#[derive(Clone, Copy, Debug, PartialEq, Eq)]
pub struct CreateOrder {
    pub qty: u64,
    pub price: i8,
    pub market: u16,
    pub yes: bool,
}

/// A reduction as a client submits it.
#[derive(Clone, Copy, Debug, PartialEq, Eq)]
pub struct ModifyOrder {
    pub qty: u64,
    pub oid: usize,
    pub market: u16,
}

} // verus!
