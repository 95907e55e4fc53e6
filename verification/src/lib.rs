//! A codec for binary patches, verified with Verus, and the small pieces of a
//! game randomizer that surround it.
//!
//! The heart of the crate is [`bps`]: it decodes a patch into blocks, applies
//! the blocks to a destination buffer, and encodes the difference between a
//! source and a target as a patch that writes nowhere but in the ranges it is
//! given. What the three do together is stated and proved in
//! [`bps::theorems`].
//!
//! The other modules hold what the program around the codec computes without
//! reading or writing anything: the allocator of free space and the settings
//! ([`customize`]), the graph of the escape and its shortest ways
//! ([`escape_timer`]), names for the pages of the logic ([`logic`]), the
//! files of a seed ([`seed`]), and the colours and tiles of the map
//! ([`spoiler_map`]).

pub mod bps;
pub mod customize;
pub mod escape_timer;
pub mod logic;
pub mod seed;
pub mod spoiler_map;
