//! Ruled Datom serialization and deserialization.

pub mod canonical;
pub mod codec;
mod collections;
mod decimal;
mod expectation;
mod indentation;
mod lexis;
mod maps;
pub mod meaning;
pub mod probing;
mod messages;
mod parser;
mod pretty;
pub mod round_trip;
mod scalars;
mod strings;

pub use codec::{
    ContextName, DatomDecode, DatomEncode, DatomRecord, DatomSource, DatomText, DecodeWalk,
    EncodeWalk, WalkEvent,
};
pub use expectation::{ProtosShape, ShapeDefined, ShapeProbe};
pub use parser::DatomError;
pub use scalars::{dotted_float_text, is_dotted_float};
