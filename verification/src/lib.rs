//! Immutable, byte-ordered maps and sets backed by finite-state transducers,
//! with composable byte automata for searching them.

pub mod automaton;
pub mod buffer;
pub mod bytes;
pub mod destination;
pub mod encoding;
pub mod entries;
pub mod error;
pub mod item;
pub mod language;
pub mod laws;
pub mod layout;
pub mod map;
pub mod merge;
pub mod raw_map;
pub mod raw_set;
pub mod range;
pub mod select;
pub mod set;
