//! Block bookkeeping, peer tables and message handling for a small
//! content-addressed UDP file-sharing node.

pub mod bitmap;
pub mod text;
pub mod codec;
pub mod blocks;
pub mod message;
pub mod download;
pub mod chance;
pub mod peers;
pub mod laws;
pub mod node;
