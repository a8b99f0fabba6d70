//! Organises photographs under names taken from their capture time.
//!
//! - `timestamp`: reads a capture time out of a metadata field value.
//! - `naming`: the candidate name of a capture time and its numbered slots.
//! - `walker`: which directory entries are photos, and under which name.
//! - `resolver`: the slot search that links, skips or probes further.
//! - `laws`: a model of whole runs over a destination, and what holds of it.

pub mod laws;
pub mod naming;
pub mod resolver;
pub mod timestamp;
pub mod walker;
