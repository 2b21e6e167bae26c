//! Authoritative server core for a small multiplayer world: wire protocol
//! codec, player/monument store, connection registry with per-connection
//! outbound queues, session message handling, and the monument build
//! workflow with its durable completion log.

pub mod codec;
pub mod comfyui;
pub mod kv;
pub mod manager;
pub mod messages;
pub mod persist;
pub mod session;
pub mod types;
pub mod world;
