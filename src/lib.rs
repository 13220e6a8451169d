//! A multi-tenant event store: append-only streams of JSON events, each kept as a
//! newline-delimited record file with a fixed-width offset index beside it.

pub mod lines;
pub mod index;
pub mod event;
pub mod json;
pub mod db;
pub mod layout;
pub mod server;
pub mod api;
pub mod openid;
