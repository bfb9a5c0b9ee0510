//! Keeps a board of cards in step with the open incidents of a tracker.
//!
//! The crate holds the decisions of one reconciliation cycle and the format of
//! the durable incident-to-card mapping. Remote calls and file access are left
//! to the caller, which performs the requests that a [`engine::Cycle`] hands
//! out and feeds the replies back.

pub mod cards;
pub mod clock;
pub mod decimal;
pub mod engine;
pub mod laws;
pub mod model;
pub mod plan;
pub mod protocol;
pub mod records;
pub mod store;
pub mod text;
pub mod traces;
