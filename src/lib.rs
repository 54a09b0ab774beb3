//! A log-structured key/value storage engine.
//!
//! Segments are append-only byte logs made of frames (an eight-byte length
//! prefix followed by a payload); an in-memory index maps each key to the
//! frame that holds its latest record. Files, sockets and the text encoding
//! of records are handled by the caller: the engine works on byte images.
use vstd::prelude::*;

pub mod errors;
pub mod frame;
pub mod kvmessage;
pub mod kvsengine;
pub mod keyorder;
pub mod laws;
pub mod naming;

pub use errors::KvsError;
