//! Decoder for a length-framed, checksum-protected binary record container
//! holding JSON-encoded neural-architecture benchmark entries.
//!
//! The wire format is a repetition of frames, each a little-endian `u64`
//! length, a masked cyclic-redundancy checksum of the length bytes, the data
//! bytes, and a masked checksum of the data bytes.  Each data block carries a
//! JSON array describing one benchmark record: a hex-encoded module hash, an
//! epoch count, a bit-string adjacency matrix, a comma-joined operation list,
//! and an opaque metrics payload.

pub mod api;
pub mod checksum;
pub mod error;
pub mod frame;
pub mod record;

pub use api::NasBench;
pub use checksum::crc32c;
pub use checksum::masked_crc32c;
pub use error::ChecksumSite;
pub use error::DecodeError;
pub use frame::FrameDecoder;
pub use frame::decode_blocks;
pub use frame::encode_frame;
pub use record::JsonField;
pub use record::Op;
pub use record::RawRecord;
pub use record::parse_hash;
