//! An in-memory key-value store speaking a line-oriented binary wire
//! protocol. The crate is split along the request pipeline: the frame
//! codec ([`resp`]), the command interpreter ([`cmd`]), the TTL-aware
//! store ([`store`]), the startup configuration ([`rdb`]), and the
//! dispatch step that ties them together ([`server`]). Shared byte-level
//! text utilities live in [`text`].
pub mod cmd;
pub mod rdb;
pub mod resp;
pub mod server;
pub mod store;
pub mod text;
