//! A geo-analytics core: a durable per-country hit-counter table behind a
//! serialized single-writer protocol, and the facade decisions that compose
//! country resolution with counting.

pub mod facade;
pub mod protocol;
pub mod store;
