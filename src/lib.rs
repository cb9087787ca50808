//! A PNG chunk-stream reader and two ways of hiding a text message in a PNG
//! file: bytes appended after the terminal chunk, or a private chunk inserted
//! right before it.
#![allow(non_camel_case_types)]

pub mod error;
pub mod wire;
pub mod chunks;
pub mod png;
pub mod encoders;
pub mod decoders;
pub mod writer;
pub mod laws;
