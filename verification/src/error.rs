//! Error values of the codec.
//!
//! Definition-time errors stop a layout or an enumerated field from being
//! built at all; decode errors report raw bits that match no declared tag.

use vstd::prelude::*;

verus! {

/// A definition-time failure: the layout or an enumerated field cannot be
/// built as declared.
#[derive(Debug, PartialEq, Eq)]
pub enum LayoutError {
    /// The layout's total bit width is not a multiple of eight.
    NotByteAligned { total_bits: usize },
    /// An unsigned field's declared width lies outside `[1, 128]`.
    WidthOutOfRange { field: String, width: usize },
    /// A tag's discriminant does not fit the width derived for its
    /// enumerated field; the valid range is `[0, 2^width)`.
    DiscriminantOutOfRange { tag: String, discriminant: u128, width: usize },
    /// Two tags of one enumerated field share a discriminant.
    DuplicateDiscriminant { tag: String, discriminant: u128 },
    /// An enumerated field declares no tag at all.
    EmptyEnum,
    /// The layout's total bit width exceeds what this machine can address.
    Oversized,
}

/// A decode failure: the raw bits of an enumerated field match no declared
/// tag.  This can only happen if the buffer was corrupted or written under
/// an incompatible layout.
#[derive(Debug, Clone, Copy, PartialEq, Eq, Structural)]
pub enum DecodeError {
    UnknownDiscriminant { raw: u128 },
}

} // verus!
