//! Plain descriptions of an order and of a level as a client states them.

use vstd::prelude::*;

verus! {

/// Which way an order trades.
#[derive(Clone, Copy, Debug, PartialEq, Eq)]
pub enum Intent {
    BID,
    ASK,
}

/// An order as a client states it.
#[derive(Clone, Copy, Debug)]
#[allow(dead_code)]
pub struct Order {
    side: Intent,
    price: i8,
    symbol: u16,
    quantity: u64,
}

/// A level as a client sees it.
#[derive(Clone, Copy, Debug)]
#[allow(dead_code)]
pub struct Level {
    side: Intent,
    price: i8,
    volume: i8,
    orders: usize,
}

} // verus!
