//! An authoritative DNS server library: the DNS wire codec, zone data and the
//! query answering logic.
pub mod dns;
pub mod parse;
pub mod presentation;
pub mod serialize;
pub mod server;
pub mod text;
pub mod zone;
pub mod roundtrip;
