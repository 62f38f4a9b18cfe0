//! A small server-side implementation of the Redis wire protocol: the frame
//! codec, the four commands it serves, and the dispatch of parsed requests
//! against a key-value store.
pub mod commands;
pub mod cursor;
pub mod decimal;
pub mod laws;
pub mod resp;
pub mod server;
pub mod store;
pub mod text;
pub mod wire;
