//! Bit-perfect playback of DSD and PCM recordings: the containers they come in, the carriers
//! that take them to a DAC, and the decisions a player makes on the way.
//!
//! Everything here works on plain values. Files arrive as their bytes, devices as the
//! descriptors and formats they declare, and what leaves is samples, layouts and decisions.

pub mod audio;
pub mod bit_perfect;
pub mod bytes;
pub mod dop;
pub mod dsd;
pub mod native;
pub mod output;
pub mod path;
pub mod player;
pub mod report;
pub mod rows;
pub mod text;
pub mod tui;
pub mod reader;
