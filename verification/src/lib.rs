//! A codec for a Redis-compatible wire protocol: a model of its frames, an
//! encoder from frames to bytes and a decoder from bytes to frames that
//! works on a buffer as it grows.
//!
//! Every executable function carries a contract over the mathematical
//! model of a frame ([`value::Value`]), of its wire form ([`encode::wire`])
//! and of what a buffer holds ([`decode::parse`]). The modules [`laws`],
//! [`stream`] and [`keys`] state what holds of these together.

pub mod decimal;
pub mod decode;
pub mod decode_map;
pub mod double;
pub mod encode;
pub mod error;
pub mod frame;
pub mod keys;
pub mod laws;
pub mod scalar;
pub mod stream;
pub mod text;
pub mod value;

pub use crate::decode::RespDecode;
pub use crate::decode_map::decode_map;
pub use crate::encode::RespEncode;
pub use crate::error::{DecodeError, EncodeError, Malformed};
pub use crate::frame::{RespArray, RespFrame, RespMap, RespSet};
pub use crate::scalar::{
    BulkString, RespDouble, RespNull, RespNullArray, RespNullBulkString, SimpleError,
    SimpleString,
};
