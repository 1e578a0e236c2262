//! Queueing of QUIC DATAGRAM frames (RFC 9221) on one connection.
//!
//! Outgoing datagrams wait in per-flow queues that are served by deficit round
//! robin, each flow under its own CoDel controller (RFC 8289, RFC 8290);
//! incoming ones wait in a bounded receive buffer. Every operation carries a
//! contract over a mathematical model of the queues.
pub mod class;
pub mod codel;
pub mod config;
pub mod datagrams;
pub mod fairness;
pub mod flow;
mod flow_map;
pub mod frame;
pub mod overflow;
pub mod payload;
pub mod schedule;
pub mod service;
pub mod state;
pub mod stats;
pub mod time;
pub mod writing;
