//! The chat part of a websocket server: session pools with topics and
//! lattices, the routes and messages of its HTTP and websocket protocols,
//! and the requests it makes to backends.
pub mod text;
pub mod content_type;
pub mod json;
pub mod message;
pub mod handler;
pub mod cid;
pub mod map;
pub mod lattice;
pub mod pair;
pub mod arc;
pub mod error;
pub mod processor;
pub mod pool;
pub mod codec;
pub mod dispatcher;
pub mod authorize;
pub mod backend;
pub mod router;
pub mod pools;
pub mod replication;
pub mod frame;
pub mod source_ip;
pub mod pool_laws;
pub mod lattice_json;
