//! The BPS patch format: its numbers, its blocks, the decoder, the applier
//! and the encoder.

pub mod block;
pub mod checksum;
pub mod decoder;
pub mod encoder;
pub mod error;
pub mod format;
pub mod index;
pub mod number;
pub mod patch;
pub mod theorems;
pub mod trigram;

pub use block::BPSBlock;
pub use decoder::BPSPatchDecoder;
pub use encoder::{encode_patch, ranges_valid, BPSPatchEncoder};
pub use error::{FormatError, RangeError};
pub use index::{LongestMatchIndex, ScanIndex};
pub use patch::BPSPatch;
pub use trigram::TrigramIndex;
