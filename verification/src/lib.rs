//! Core of a room-based chat service: a registry of rooms, each room owning a
//! membership roster, a presence set, and the attached connections it fans
//! messages out to.
//!
//! The transport (frames in and out), authentication, and durable storage are
//! collaborators outside this crate: they hand the core plain values and take
//! plain values back.

pub mod connection;
pub mod errors;
pub mod message;
pub mod registry;
pub mod room;
