//! Core of a real-time chat relay: the hub that owns all live connections and
//! authenticated user sessions, routes public and private messages between
//! them, enforces per-user rate limits, content validation and moderator-run
//! bans, and drives the two-phase Mojang-style authentication handshake.
//!
//! The hub is a pure state machine: every inbound event is a plain value, and
//! every handler returns the list of effects (packets to send, connections to
//! close, outside calls to start) that the transport layer must carry out.

pub mod auth;
pub mod error;
pub mod id;
pub mod message;
pub mod moderation;
pub mod packet;
pub mod server;
pub mod strings;
