//! End-to-end encrypted memory for agents.
//!
//! The client seals every memory and derives blinded bucket tokens for it; the provider stores
//! opaque bytes and answers searches by counting shared tokens. Nothing the provider is handed
//! carries a plaintext, a name or a key.

pub mod blind_index;
pub mod bytes;
pub mod embedder;
pub mod envelope;
pub mod framing;
pub mod http;
pub mod json;
pub mod keyfile;
pub mod local;
pub mod memory_store;
pub mod primitives;
pub mod ranking;
pub mod recall;
pub mod routes;
pub mod rpc;
pub mod schema;
pub mod store;
pub mod table;
pub mod text;
pub mod tool_list;
pub mod tools;
pub mod transport;
pub mod wire;
