//! A small on-chain DAO governance engine: bootstrap (three founders join),
//! a 2-of-3 founder planning ballot that ratifies the initial token supply,
//! and an online phase with token-weighted pledge voting, threshold-triggered
//! execution and reward settlement.
//!
//! The host boundary (persistent storage, caller authentication, entry-point
//! registration) is deliberately outside this library: every operation takes
//! the authenticated caller identity as a plain argument and mutates an
//! in-memory [`dao::Dao`] value all-or-nothing.

pub mod accounting;
pub mod dao;
pub mod error;
pub mod join;
pub mod laws;
pub mod online;
pub mod parse;
pub mod plan;
