//! A Roughtime server core: tagged-message codec, Merkle batching, key
//! delegation and the per-batch request/response logic, with contracts.

mod bytes;
pub mod config;
pub mod crypto;
mod error;
pub mod key;
pub mod merkle;
pub mod message;
pub mod server;
pub mod tag;

pub use crate::bytes::{append_bytes, le32_bytes, le64_bytes};
pub use crate::config::{is_valid_config, KmsProtection, ServerConfig};
pub use crate::error::Error;
pub use crate::key::{LongTermKey, OnlineKey};
pub use crate::merkle::MerkleTree;
pub use crate::message::RtMessage;
pub use crate::server::{timestamp_micros, Server, Step, MIN_REQUEST_LENGTH};
pub use crate::tag::Tag;
