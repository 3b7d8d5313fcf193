//! Flooding publish/subscribe protocol core: it tracks the local node's and
//! each connected peer's topic subscriptions, suppresses already-seen
//! messages with a bounded approximate filter, and computes the relay set of
//! every published or inbound message, queueing the resulting outbound
//! envelopes for a poll-driven network engine to send.

pub mod types;
pub mod dedup;
pub mod routing;
pub mod behaviour;
