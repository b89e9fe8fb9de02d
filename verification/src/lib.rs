//! A minimal, verified model of the classic lock-ordering hazard between two
//! concurrent fund transfers on shared accounts, together with the ordering
//! discipline that eliminates it.
//!
//! The `account` module holds the balance arithmetic: accounts, the transfer
//! operation, and a sequential batch runner, each with a contract that pins
//! down the exact balances produced.
//!
//! The `locking` module holds the concurrency protocol: the decision of which
//! of two locks to take first, and a transition system over lock-acquisition
//! phases in which the deadlock can be reproduced step by step and the
//! global-ordering fix is proved to preclude it.

pub mod account;
pub mod locking;
