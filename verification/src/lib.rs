//! Core of a BitTorrent tracker: the in-memory swarm registry with
//! announce/scrape/cleanup operations, the stateless time-windowed
//! connection-id authority that guards the UDP path against address
//! spoofing, and the BEP 15 binary protocol engine that decodes request
//! datagrams, dispatches them against the registry, and encodes the
//! reply datagrams.
//!
//! Everything here is plain data and pure logic; sockets, clocks and
//! task scheduling live outside and hand in values (the current time in
//! seconds, the source address of a datagram, its bytes).

pub mod peer;
pub mod swarm;
pub mod registry;
pub mod connection;
pub mod codec;
pub mod engine;
pub mod janitor;
