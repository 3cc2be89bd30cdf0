//! Packed per-pixel alpha masks for sprite collision detection.
//!
//! A mask records, for every pixel of a sprite frame, whether that pixel is
//! opaque enough to count as solid. Bits are packed into 64-bit words,
//! row-major, with each row padded to a whole number of words. The crate
//! covers the full life of a mask: extraction from a decoded pixel surface
//! with an alpha threshold, a checksummed binary cache encoding, and the two
//! collision predicates (mask against mask, mask against box) that operate
//! directly on the packed words.

pub mod bits;
pub mod cache;
pub mod collide;
pub mod extract;
pub mod grid;
pub mod surface;
