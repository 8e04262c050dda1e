//! A packed bit-field codec.
//!
//! A layout is an ordered list of fields, each a small unsigned integer or an
//! enumerated value, packed contiguously into a fixed-size byte buffer.  The
//! buffer is one little-endian bitstream: absolute bit `p` lives in byte
//! `p / 8` at intra-byte position `p % 8`, where intra-byte bit 0 is the
//! least-significant bit of the byte.  Fields may straddle byte boundaries.

pub mod bits;
pub mod delivery;
pub mod enumspec;
pub mod error;
pub mod layout;
pub mod specifier;
