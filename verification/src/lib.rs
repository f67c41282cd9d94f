//! Idunn: a peer-to-peer node that speaks a small line-oriented protocol,
//! keeps a list of known peers and queues work for a background worker.
//!
//! The protocol, the peer list, the work queue and the configuration rules
//! live here and are verified; sockets, threads, files and OpenPGP live in
//! the program around this library.

pub mod text;
pub mod fields;
pub mod workqueue;
pub mod proto;
pub mod peers;
pub mod config;
pub mod actions;
