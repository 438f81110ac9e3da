//! Storage-engine core of an in-memory key-value server: a binary-safe
//! growable byte buffer (`bytestring`), an ordered index over
//! `(score, element)` pairs (`skiplist`), a length/sigil-prefixed wire
//! codec for typed values (`frame`), and the command parsers built on it
//! (`commands`).

pub mod bytestring;
pub mod commands;
pub mod frame;
pub mod skiplist;
