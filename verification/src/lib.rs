//! Core of a passive DNS route watcher: a canonical domain-name model with
//! zone (suffix) testing, the zone/alias matching engine that decides which
//! resolved addresses get a host route toward a VPN gateway, and the query-log
//! model that records recently seen corporate hosts for startup replay.

pub mod engine;
pub mod name;
pub mod store;
