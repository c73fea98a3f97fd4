//! Splitting a file into ordered, byte-contiguous parts and recombining
//! them, with CRC-32 integrity checks recorded in a sidecar metadata
//! document.
//!
//! The library works on plain byte and character values; reading and writing
//! the actual files is left to the caller. `split_content` partitions a
//! file's bytes and records checksums, `serialize_split_info` and
//! `parse_split_info` write and read the metadata document, and
//! `combine_parts` verifies every checksum and reassembles the original
//! bytes. The laws module proves the round-trip properties that tie these
//! together.

pub mod checksum;
pub mod combine;
pub mod digits;
pub mod errors;
pub mod laws;
pub mod metadata;
pub mod names;
pub mod split;

pub use combine::combine_parts;
pub use errors::{CombineError, SplitError};
pub use metadata::{parse_split_info, serialize_split_info, SplitInfo};
pub use names::{base_name, file_stem, info_file_name, part_file_name};
pub use split::{split_content, SplitOptions};
