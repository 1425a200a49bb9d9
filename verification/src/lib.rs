//! Threshold multi-party computation over a prime field: Shamir secret
//! sharing, arithmetic circuits and the per-party protocol engine.

pub mod algebra;
pub mod circuit;
pub mod combinatorics;
pub mod field;
pub mod gate;
pub mod joint;
pub mod ledger;
pub mod link;
pub mod mailbox;
pub mod message;
pub mod number_theory;
pub mod party;
pub mod polynomial;
pub mod progress;
pub mod reduction;
pub mod share_receiver;
pub mod share_sender;
pub mod sharing;
pub mod voting;
pub mod wire;
