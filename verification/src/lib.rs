//! An in-process metrics capture engine: every observed counter, gauge and
//! histogram write is kept as a compact event in an append-only series of
//! time-bounded chunks, next to a table that interns each metric key as a
//! dense 16-bit id.

pub mod chunk;
pub mod event;
pub mod iter;
pub mod key;
pub mod label_set;
pub mod memory;
pub mod persist;
pub mod procession;
pub mod rebuild;
pub mod recorder;
pub mod timestamp;
