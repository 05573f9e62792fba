//! A parimutuel prediction-market ledger: a deterministic state machine that
//! tracks account balances, yes/no markets, wagers and payouts.
//!
//! The ledger is a pure transition function: one action at a time is applied
//! to the state, and either the action fully commits its effects or the
//! state is left untouched and a named error is returned.
//!
//! - [`ledger`] holds the state machine itself: the data model, its
//!   well-formedness invariant, and one exactly-specified operation per
//!   action, with `execute` dispatching among them.
//! - [`laws`] states and proves the global guarantees, led by conservation:
//!   value in circulation never exceeds value minted.
//! - [`codec`] is the canonical binary form of actions and of the whole
//!   state, for the wire and for commitments.
//! - [`commands`] carries the decision logic of a chat front end that
//!   mirrors the ledger: argument parsing and pre-checks on plain values.

mod arith;
pub mod codec;
pub mod commands;
pub mod laws;
pub mod ledger;
mod sums;
mod text;
