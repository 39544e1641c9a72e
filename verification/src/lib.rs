//! Session-ownership and subscription-routing core of a distributed
//! publish/subscribe message broker.
//!
//! The crate answers three questions for every published message and every
//! connecting client: who currently owns the logical session identified by a
//! client name, which subscribers (local or on other cluster nodes) match a
//! given topic, and, when several subscribers share a subscription group,
//! which single one receives the message.

pub mod types;
pub mod topic;
pub mod router;
pub mod session;
pub mod entry;
pub mod selector;
pub mod retain;
pub mod limiter;
pub mod shared;

pub mod api;
