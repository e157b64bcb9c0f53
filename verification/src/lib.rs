//! Matching core of a limit order book: order classification, price-time
//! ordered storage, admission, and the sweep that turns one market order into
//! trades against resting limit orders.
//!
//! - `u256`: the 256-bit integers of prices and quantities.
//! - `order`: orders, their kinds, and how side and prices encode the kind.
//! - `level`: price levels and the ordered sides they make up.
//! - `sweep`: how a need for quantity is met from resting orders.
//! - `matching`: one matching step for the market orders of one side.
//! - `book`: the book itself, with admission and matching.
//! - `place`, `arrival`, `priority`, `conservation`, `laws`: what is proved
//!   of admission and matching beyond the contracts of the operations.

pub mod arrival;
pub mod book;
pub mod conservation;
pub mod laws;
pub mod level;
pub mod matching;
pub mod order;
pub mod place;
pub mod priority;
pub mod sweep;
pub mod u256;
