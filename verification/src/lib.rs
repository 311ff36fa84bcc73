//! An addressing-and-I/O engine for inspecting binary artifacts.
//!
//! Byte sources are opened from URIs and placed in a synthetic 64-bit
//! physical address space; a registry of mappings overlays a virtual
//! address space on top of it; sparse record-based formats (Motorola
//! S-records) are parsed into, and regenerated from, the same byte-source
//! abstraction.

pub mod helper;
pub mod io;
pub mod ist;
pub mod mapsquery;
pub mod srec;
pub mod utils;
pub mod write;

pub use io::{Backing, DescState, EngineState, RIODesc, RIO};
pub use mapsquery::{RIOMap, RIOMapQuery};
pub use utils::{IoError, IoMode};
