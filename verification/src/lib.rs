//! A verified Bencode codec: a byte-offset decoder from raw bytes to a
//! generic value model, a canonical encoder whose dictionaries always come
//! out key-sorted, the round-trip laws connecting the two, and the derived
//! computations a metainfo consumer needs: a typed projection, the digest
//! of the canonical `info` encoding, and the segmentation of the piece blob
//! into fixed-width records.

pub mod decode;
pub mod digest;
pub mod encode;
pub mod meta;
pub mod render;
pub mod roundtrip;
pub mod text;
pub mod value;

pub use value::BencodeError;
pub use value::SpecValue;
pub use value::Value;
