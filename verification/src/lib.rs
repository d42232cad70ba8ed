//! Decoding and checking of ChaCha20-encrypted, length-prefixed protobuf
//! frames carried over reassembled TCP streams.

pub mod analysis;
pub mod args;
pub mod bytes;
pub mod crypto;
pub mod decode;
pub mod display;
pub mod frame;
pub mod order;
pub mod packet;
pub mod proto;
pub mod render;
pub mod schema;
pub mod tcp;
pub mod text;
