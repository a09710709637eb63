//! A verified core for map-tile archives.
//!
//! The crate models a tile pyramid indexed by `(zoom, column, row)` and the
//! native block-indexed container format that stores one: a fixed header,
//! a metadata blob, per-block tile payloads with their tile indexes, and a
//! block directory, all big-endian on the wire.  Around that core stand the
//! byte-level value readers and writers (including unsigned LEB128 varints),
//! the reader contract that every archive adapter shares, a mock reader and
//! writer for exercising the pipeline, and the node type of the pipeline
//! description language together with its parser and printer.

pub mod codec;
pub mod composer;
pub mod container;
pub mod error;
pub mod io;
pub mod mock;
pub mod reader;
pub mod types;
pub mod vdl;
pub mod vdl_text;
pub mod vtc;
