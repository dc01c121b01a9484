//! Core of a command-line memo/bookmark capture tool.
//!
//! The library holds the two pieces of real logic: the free-token
//! classifier that turns command-line words into a structured save
//! request, and the persisted-state manager that encodes, decodes and
//! updates the two small JSON-backed records (user configuration and
//! usage counters) with date-based rollover.  All I/O — flag parsing,
//! file reads and writes, the network call — lives outside, in the
//! surrounding binary; the library receives and returns plain values.

pub mod classify;
pub mod counter;
pub mod date;
pub mod jsontext;
pub mod store;
pub mod wire;
