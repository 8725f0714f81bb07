//! Verified core of the Ethera sidecar: nonce reservations, XT admission and
//! lifecycle decisions, mailbox matching and encoding.

pub mod abi;
pub mod admission;
pub mod codec;
pub mod config;
pub mod coordinator;
pub mod decision;
pub mod error;
pub mod keyed;
pub mod mailbox;
pub mod lifecycle;
pub mod nonce;
pub mod overrides;
pub mod parser;
pub mod period;
pub mod poll;
pub mod put_inbox;
pub mod retention;
pub mod server;
pub mod simulation;
pub mod storage;
pub mod submission;
pub mod types;
pub mod util;
pub mod xt;
