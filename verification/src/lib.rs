//! A content-addressed, versioned filesystem ("mount") over a block store:
//! the data model, its encodings, the block cache, the rewrite of the node
//! graph along a path, and the chain of root identifiers.

pub mod cache;
pub mod change_log;
pub mod cid;
pub mod client;
pub mod closure;
pub mod codec;
pub mod content;
pub mod frame;
pub mod ipld;
pub mod laws;
pub mod manifest;
pub mod mount;
pub mod node;
pub mod object;
pub mod path;
pub mod read_back;
pub mod root;
pub mod schema;
pub mod sorted_map;
pub mod store;
pub mod text;
pub mod timestamp;
pub mod token;
pub mod upsert;
