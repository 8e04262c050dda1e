//! The `Specifier` capability contract: a field type's bit width, its
//! storage type, and `get`/`set` primitives over a byte buffer at a given
//! bit offset.
//!
//! The data-driven layout (`crate::layout`) drives the same primitives
//! through runtime widths; this trait is the typed face of the contract,
//! implemented here for `bool` as a one-bit field.  The storage-kind table
//! maps every width in `[1, 128]` to the narrowest built-in unsigned
//! integer that holds it.

use vstd::prelude::*;

verus! {

use crate::bits::{bit_of, field_value, get_bits, lemma_field_value_bound, set_bits};
use vstd::arithmetic::div_mod::lemma_small_mod;
use vstd::arithmetic::power2::{lemma2_to64, lemma_pow2_pos, pow2};

/// The capability contract implemented by every field type.
pub trait Specifier {
    /// The natural storage type of the field's values.
    type T;

    /// The field's bit width.
    spec fn spec_bits() -> nat;

    /// The unsigned value a stored `T` stands for.
    spec fn value_of(v: Self::T) -> nat;

    /// The field's bit width, at most 128.
    fn bits() -> (r: usize)
        ensures
            r as nat == Self::spec_bits(),
            r <= 128,
    ;

    /// Read this field's value from the buffer at `bit_offset`.
    fn get(data: &Vec<u8>, bit_offset: usize) -> (r: Self::T)
        requires
            bit_offset + Self::spec_bits() <= data@.len() * 8,
            bit_offset + Self::spec_bits() <= usize::MAX,
        ensures
            Self::value_of(r) == field_value(data@, bit_offset as nat, Self::spec_bits()),
    ;

    /// Write `val` into this field at `bit_offset`: the field then stores
    /// `value_of(val)` reduced to the field's width (exactly `value_of(val)`
    /// whenever it fits), and every bit outside the field's span is
    /// unchanged.
    fn set(data: &mut Vec<u8>, bit_offset: usize, val: Self::T)
        requires
            bit_offset + Self::spec_bits() <= old(data)@.len() * 8,
            bit_offset + Self::spec_bits() <= usize::MAX,
        ensures
            final(data)@.len() == old(data)@.len(),
            field_value(final(data)@, bit_offset as nat, Self::spec_bits()) == Self::value_of(val)
                % pow2(Self::spec_bits()),
            Self::value_of(val) < pow2(Self::spec_bits()) ==> field_value(
                final(data)@,
                bit_offset as nat,
                Self::spec_bits(),
            ) == Self::value_of(val),
            forall|q: nat|
                q < old(data)@.len() * 8 && !(bit_offset <= q < bit_offset + Self::spec_bits())
                    ==> #[trigger] bit_of(final(data)@, q) == bit_of(old(data)@, q),
    ;
}

/// A `bool` is a one-bit field storing 0 or 1.
impl Specifier for bool {
    type T = bool;

    open spec fn spec_bits() -> nat {
        1
    }

    open spec fn value_of(v: bool) -> nat {
        if v {
            1
        } else {
            0
        }
    }

    fn bits() -> (r: usize) {
        1
    }

    fn get(data: &Vec<u8>, bit_offset: usize) -> (r: bool) {
        proof {
            lemma_field_value_bound(data@, bit_offset as nat, 1);
            lemma2_to64();
        }
        let raw = get_bits(data, bit_offset, 1);
        raw == 1
    }

    fn set(data: &mut Vec<u8>, bit_offset: usize, val: bool) {
        let raw: u128 = if val {
            1
        } else {
            0
        };
        set_bits(data, bit_offset, 1, raw);
        proof {
            lemma2_to64();
            lemma_pow2_pos(1);
            lemma_small_mod(raw as nat, pow2(1));
        }
    }
}

/// The storage width backing a field width: the narrowest built-in
/// unsigned integer with at least `width` bits.
pub open spec fn spec_storage_bits(width: nat) -> nat {
    if width <= 8 {
        8
    } else if width <= 16 {
        16
    } else if width <= 32 {
        32
    } else if width <= 64 {
        64
    } else {
        128
    }
}

/// The storage width backing a field width.
pub fn storage_bits(width: usize) -> (r: usize)
    requires
        1 <= width <= 128,
    ensures
        r as nat == spec_storage_bits(width as nat),
        width <= r,
{
    if width <= 8 {
        8
    } else if width <= 16 {
        16
    } else if width <= 32 {
        32
    } else if width <= 64 {
        64
    } else {
        128
    }
}

} // verus!
