//! Chord-progression processing: an abstract syntax tree for progressions of
//! note names, resolution of note names to scale degrees in C major, a
//! canonical interchange encoding of the tree, and the end-to-end pipeline
//! from interchange text to a degree listing.

pub mod ast;
pub mod codec;
pub mod lower;
pub mod pipeline;
pub mod resolve;
pub mod scale;

pub use ast::AstNode;
pub use codec::{decode_ast, encode_ast, DecodeError};
pub use lower::{lower, CstNode};
pub use pipeline::{degrees_to_string, process_chord_progression};
pub use resolve::process_ast;
pub use scale::note_to_degree;
