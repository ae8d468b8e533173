//! Verified core of a mining-fleet controller.
//!
//! A fleet is a set of farms (sites), each owning rigs (host machines), each
//! hosting GPUs that report telemetry. This crate holds the two pieces of the
//! controller with real design content, fully verified:
//!
//! * the topology aggregator, which rebuilds the nested Farm -> Rig -> GPU
//!   tree from the flat rows of an outer-join scan ([`aggregate`]);
//! * the connection registry and broadcaster, which tracks live real-time
//!   connections per channel group and fans messages out to them
//!   ([`registry`]);
//!
//! together with a model of the relational store boundary ([`store`]) and the
//! decision logic of the real-time protocol ([`protocol`]). Transport, HTTP
//! routing and the actual database driver live outside this crate and hand
//! plain values in and out.

pub mod aggregate;
pub mod entities;
pub mod lookup;
pub mod protocol;
pub mod registry;
pub mod store;
