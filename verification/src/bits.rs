//! The primitive bit engine: reading and writing a field of up to 128 bits
//! at an arbitrary bit offset of a byte buffer.
//!
//! The buffer is treated as one contiguous little-endian bitstream: absolute
//! bit `p` lives in byte `p / 8` at intra-byte bit `p % 8`, where intra-byte
//! bit 0 is the least-significant bit of that byte.  A field of width `w` at
//! offset `off` occupies absolute bits `[off, off + w)`; value bit `i`
//! (0 = least significant) sits at absolute bit `off + i`.

use vstd::prelude::*;

verus! {

use vstd::arithmetic::div_mod::{
    lemma_breakdown, lemma_fundamental_div_mod, lemma_multiply_divide_lt, lemma_small_mod,
};
use vstd::arithmetic::power2::{
    lemma2_to64, lemma2_to64_rest, lemma_pow2_adds, lemma_pow2_pos, lemma_pow2_strictly_increases,
    lemma_pow2_unfold, pow2,
};
use vstd::bits::lemma_u128_shr_is_div;

/// True when bit `k` (0 = least significant) of byte `b` is set.
pub open spec fn byte_bit(b: u8, k: u8) -> bool {
    (b >> k) & 1 == 1
}

/// True when absolute bit `p` of the buffer is set, under the little-endian
/// bitstream convention.
pub open spec fn bit_of(buf: Seq<u8>, p: nat) -> bool
    recommends
        p < buf.len() * 8,
{
    byte_bit(buf[(p / 8) as int], (p % 8) as u8)
}

/// True when bit `j` (0 = least significant) of the 128-bit value `v` is set.
pub open spec fn val_bit(v: u128, j: nat) -> bool
    recommends
        j < 128,
{
    (v >> (j as u128)) & 1 == 1
}

/// The unsigned value stored at absolute bits `[off, off + width)` of the
/// buffer: bit `off + i` contributes `2^i`.
pub open spec fn field_value(buf: Seq<u8>, off: nat, width: nat) -> nat
    recommends
        off + width <= buf.len() * 8,
    decreases width,
{
    if width == 0 {
        0
    } else {
        let w1 = (width - 1) as nat;
        field_value(buf, off, w1) + if bit_of(buf, off + w1) {
            pow2(w1)
        } else {
            0
        }
    }
}

/// A stored field value is always below `2^width`.
pub proof fn lemma_field_value_bound(buf: Seq<u8>, off: nat, width: nat)
    ensures
        field_value(buf, off, width) < pow2(width),
    decreases width,
{
    if width == 0 {
        lemma2_to64();
    } else {
        let w1 = (width - 1) as nat;
        lemma_field_value_bound(buf, off, w1);
        lemma_pow2_unfold(width);
    }
}

/// A field's stored value depends only on the bits of its own span: two
/// buffers that agree on `[off, off + width)` store the same value there.
pub proof fn lemma_field_value_congruence(b1: Seq<u8>, b2: Seq<u8>, off: nat, width: nat)
    requires
        forall|p: nat| off <= p < off + width ==> #[trigger] bit_of(b1, p) == bit_of(b2, p),
    ensures
        field_value(b1, off, width) == field_value(b2, off, width),
    decreases width,
{
    if width > 0 {
        let w1 = (width - 1) as nat;
        lemma_field_value_congruence(b1, b2, off, w1);
        assert(bit_of(b1, off + w1) == bit_of(b2, off + w1));
    }
}

/// Every power of two up to `2^127` fits in a `u128`.
proof fn lemma_pow2_le_u128_max(e: nat)
    requires
        e < 128,
    ensures
        pow2(e) <= u128::MAX,
{
    lemma2_to64();
    lemma2_to64_rest();
    lemma_pow2_adds(63, 64);
    if e < 127 {
        lemma_pow2_strictly_increases(e, 127);
    }
}

/// `2^128` is one more than the largest `u128`.
proof fn lemma_pow2_128()
    ensures
        pow2(128) == 0x1_0000_0000_0000_0000_0000_0000_0000_0000,
{
    lemma2_to64();
    lemma_pow2_adds(64, 64);
}

/// Shifting 1 left by `sh < 128` produces exactly `2^sh`.
proof fn lemma_u128_shl1_is_pow2(sh: u128)
    requires
        sh < 128,
    ensures
        (1u128 << sh) == pow2(sh as nat),
    decreases sh,
{
    if sh == 0 {
        assert(1u128 << 0 == 1) by (bit_vector);
        lemma2_to64();
    } else {
        lemma_u128_shl1_is_pow2((sh - 1) as u128);
        assert(1u128 << sh == (1u128 << ((sh - 1) as u128)) * 2) by (bit_vector)
            requires
                0 < sh < 128,
        ;
        lemma_pow2_unfold(sh as nat);
        lemma_pow2_le_u128_max(sh as nat);
    }
}

/// Bit `j` of `v` is the parity of `v / 2^j`.
proof fn lemma_val_bit_div_mod(v: u128, j: nat)
    requires
        j < 128,
    ensures
        val_bit(v, j) == ((v as nat / pow2(j)) % 2 == 1),
{
    lemma_u128_shr_is_div(v, j as u128);
    let t = v >> (j as u128);
    assert(t & 1 == t % 2) by (bit_vector);
}

/// If bits `[off, off + width)` of the buffer hold exactly the low `width`
/// bits of `v`, then the stored field value is `v` reduced modulo `2^width`.
pub proof fn lemma_field_value_of_val_bits(buf: Seq<u8>, off: nat, width: nat, v: u128)
    requires
        width <= 128,
        forall|j: nat| j < width ==> #[trigger] bit_of(buf, off + j) == val_bit(v, j),
    ensures
        field_value(buf, off, width) == (v as nat) % pow2(width),
    decreases width,
{
    if width == 0 {
        lemma2_to64();
        assert((v as nat) % 1 == 0);
    } else {
        let w1 = (width - 1) as nat;
        lemma_field_value_of_val_bits(buf, off, w1, v);
        lemma_pow2_pos(w1);
        lemma_breakdown(v as int, pow2(w1) as int, 2);
        lemma_pow2_unfold(width);
        lemma_val_bit_div_mod(v, w1);
        assert(bit_of(buf, off + w1) == val_bit(v, w1));
        assert((v as nat / pow2(w1)) % 2 == 0 || (v as nat / pow2(w1)) % 2 == 1);
    }
}

/// Round-trip law: a value below `2^width` whose bits stand at
/// `[off, off + width)` is read back exactly.
pub proof fn lemma_write_read_round_trip(buf: Seq<u8>, off: nat, width: nat, v: u128)
    requires
        width <= 128,
        (v as nat) < pow2(width),
        forall|j: nat| j < width ==> #[trigger] bit_of(buf, off + j) == val_bit(v, j),
    ensures
        field_value(buf, off, width) == v,
{
    lemma_field_value_of_val_bits(buf, off, width, v);
    lemma_pow2_pos(width);
    lemma_small_mod(v as nat, pow2(width));
}

/// An all-zero buffer stores zero in every span.
pub proof fn lemma_field_value_zero(buf: Seq<u8>, off: nat, width: nat)
    requires
        forall|i: int| 0 <= i < buf.len() ==> buf[i] == 0u8,
        off + width <= buf.len() * 8,
    ensures
        field_value(buf, off, width) == 0,
    decreases width,
{
    if width > 0 {
        let w1 = (width - 1) as nat;
        lemma_field_value_zero(buf, off, w1);
        let p = off + w1;
        lemma_multiply_divide_lt(p as int, 8, buf.len() as int);
        assert(buf[(p / 8) as int] == 0u8);
        let k = (p % 8) as u8;
        assert((0u8 >> k) & 1 == 0) by (bit_vector);
    }
}

/// Writing one bit of one byte changes that absolute bit alone.
proof fn lemma_bit_update(pre: Seq<u8>, post: Seq<u8>, p: nat, on: bool)
    requires
        p < pre.len() * 8,
        post == pre.update(
            (p / 8) as int,
            if on {
                pre[(p / 8) as int] | (1u8 << ((p % 8) as u8))
            } else {
                pre[(p / 8) as int] & !(1u8 << ((p % 8) as u8))
            },
        ),
    ensures
        post.len() == pre.len(),
        bit_of(post, p) == on,
        forall|q: nat| q < pre.len() * 8 && q != p ==> #[trigger] bit_of(post, q) == bit_of(
            pre,
            q,
        ),
{
    let idx = (p / 8) as int;
    let k = (p % 8) as u8;
    let b = pre[idx];
    lemma_multiply_divide_lt(p as int, 8, pre.len() as int);
    assert(((b | (1u8 << k)) >> k) & 1 == 1) by (bit_vector)
        requires
            k < 8,
    ;
    assert(((b & !(1u8 << k)) >> k) & 1 != 1) by (bit_vector)
        requires
            k < 8,
    ;
    assert forall|q: nat| q < pre.len() * 8 && q != p implies #[trigger] bit_of(post, q) == bit_of(
        pre,
        q,
    ) by {
        lemma_multiply_divide_lt(q as int, 8, pre.len() as int);
        if q / 8 == p / 8 {
            let m = (q % 8) as u8;
            lemma_fundamental_div_mod(q as int, 8);
            lemma_fundamental_div_mod(p as int, 8);
            assert(m != k);
            assert(((b | (1u8 << k)) >> m) & 1 == (b >> m) & 1) by (bit_vector)
                requires
                    k < 8,
                    m < 8,
                    m != k,
            ;
            assert(((b & !(1u8 << k)) >> m) & 1 == (b >> m) & 1) by (bit_vector)
                requires
                    k < 8,
                    m < 8,
                    m != k,
            ;
        } else {
            assert(post[(q / 8) as int] == pre[(q / 8) as int]);
        }
    }
}

/// Write the low `width` bits of `val` into absolute bits
/// `[bit_offset, bit_offset + width)` of the buffer, leaving every other bit
/// of the buffer unchanged.
pub fn set_bits(data: &mut Vec<u8>, bit_offset: usize, width: usize, val: u128)
    requires
        width <= 128,
        bit_offset + width <= old(data)@.len() * 8,
        bit_offset + width <= usize::MAX,
    ensures
        final(data)@.len() == old(data)@.len(),
        forall|j: nat| j < width ==> #[trigger] bit_of(final(data)@, (bit_offset + j) as nat) == val_bit(
            val,
            j,
        ),
        forall|q: nat|
            q < old(data)@.len() * 8 && !(bit_offset <= q < bit_offset + width)
                ==> #[trigger] bit_of(final(data)@, q) == bit_of(old(data)@, q),
        field_value(final(data)@, bit_offset as nat, width as nat) == (val as nat) % pow2(
            width as nat,
        ),
{
    let ghost buf0 = data@;
    let mut i: usize = 0;
    while i < width
        invariant
            i <= width,
            width <= 128,
            bit_offset + width <= buf0.len() * 8,
            bit_offset + width <= usize::MAX,
            data@.len() == buf0.len(),
            forall|j: nat| j < i ==> #[trigger] bit_of(data@, (bit_offset + j) as nat) == val_bit(val, j),
            forall|q: nat|
                q < buf0.len() * 8 && !(bit_offset <= q < bit_offset + i) ==> #[trigger] bit_of(
                    data@,
                    q,
                ) == bit_of(buf0, q),
        decreases width - i,
    {
        let ghost prev = data@;
        let p = bit_offset + i;
        let idx = p / 8;
        let k = (p % 8) as u8;
        proof {
            lemma_multiply_divide_lt(p as int, 8, data@.len() as int);
        }
        let b = data[idx];
        let on = ((val >> (i as u128)) & 1) == 1;
        let nb = if on {
            b | (1u8 << k)
        } else {
            b & !(1u8 << k)
        };
        data[idx] = nb;
        proof {
            lemma_bit_update(prev, data@, p as nat, on);
            assert(val_bit(val, i as nat) == on);
            assert(bit_of(data@, (bit_offset + i) as nat) == on);
            assert forall|j: nat| j < i + 1 implies #[trigger] bit_of(data@, (bit_offset + j) as nat)
                == val_bit(val, j) by {
                if j < i {
                    assert(bit_of(prev, (bit_offset + j) as nat) == val_bit(val, j));
                    assert(bit_offset + j != p);
                }
            }
        }
        i = i + 1;
    }
    proof {
        lemma_field_value_of_val_bits(data@, bit_offset as nat, width as nat, val);
    }
}

/// The number of bits needed to represent `n`: the least `w` with
/// `n < 2^w`.
pub open spec fn bit_len(n: nat) -> nat
    decreases n,
{
    if n == 0 {
        0
    } else {
        1 + bit_len(n / 2)
    }
}

/// `n` fits in `bit_len(n)` bits.
pub proof fn lemma_bit_len_bound(n: nat)
    ensures
        n < pow2(bit_len(n)),
    decreases n,
{
    if n == 0 {
        lemma2_to64();
    } else {
        lemma_bit_len_bound(n / 2);
        lemma_pow2_unfold(bit_len(n));
        lemma_fundamental_div_mod(n as int, 2);
    }
}

/// No fewer than `bit_len(n)` bits can represent a positive `n`.
pub proof fn lemma_bit_len_minimal(n: nat)
    requires
        n > 0,
    ensures
        pow2((bit_len(n) - 1) as nat) <= n,
    decreases n,
{
    if n / 2 == 0 {
        assert(bit_len(0) == 0);
        lemma2_to64();
    } else {
        lemma_bit_len_minimal(n / 2);
        lemma_pow2_unfold(bit_len(n / 2));
        lemma_fundamental_div_mod(n as int, 2);
    }
}

/// `n` fits in `w` bits exactly when `bit_len(n) <= w`.
pub proof fn lemma_bit_len_le_iff(n: nat, w: nat)
    ensures
        bit_len(n) <= w <==> n < pow2(w),
{
    lemma_bit_len_bound(n);
    if bit_len(n) <= w {
        if bit_len(n) < w {
            lemma_pow2_strictly_increases(bit_len(n), w);
        }
    } else {
        lemma_bit_len_minimal(n);
        if w < bit_len(n) - 1 {
            lemma_pow2_strictly_increases(w, (bit_len(n) - 1) as nat);
        }
    }
}

/// The smallest number of bits that can represent `n`.
pub fn bit_length(n: u128) -> (r: usize)
    ensures
        r as nat == bit_len(n as nat),
        r <= 128,
{
    proof {
        lemma_pow2_128();
        lemma_bit_len_le_iff(n as nat, 128);
    }
    let mut m = n;
    let mut w: usize = 0;
    while m > 0
        invariant
            bit_len(n as nat) == w + bit_len(m as nat),
            w <= 128,
            bit_len(n as nat) <= 128,
        decreases m,
    {
        m = m / 2;
        w = w + 1;
    }
    w
}

/// Read the `width`-bit value stored at absolute bits
/// `[bit_offset, bit_offset + width)` of the buffer.
pub fn get_bits(data: &Vec<u8>, bit_offset: usize, width: usize) -> (r: u128)
    requires
        width <= 128,
        bit_offset + width <= data@.len() * 8,
        bit_offset + width <= usize::MAX,
    ensures
        r as nat == field_value(data@, bit_offset as nat, width as nat),
{
    let mut val: u128 = 0;
    let mut i: usize = 0;
    proof {
        lemma2_to64();
    }
    while i < width
        invariant
            i <= width,
            width <= 128,
            bit_offset + width <= data@.len() * 8,
            bit_offset + width <= usize::MAX,
            val as nat == field_value(data@, bit_offset as nat, i as nat),
            (val as nat) < pow2(i as nat),
        decreases width - i,
    {
        let p = bit_offset + i;
        let idx = p / 8;
        let k = (p % 8) as u8;
        proof {
            lemma_multiply_divide_lt(p as int, 8, data@.len() as int);
        }
        let byte = data[idx];
        proof {
            lemma_pow2_unfold((i + 1) as nat);
            lemma_pow2_le_u128_max(i as nat);
            lemma_u128_shl1_is_pow2(i as u128);
            if i + 1 < 128 {
                lemma_pow2_strictly_increases((i + 1) as nat, 128);
            }
            lemma_pow2_128();
        }
        if (byte >> k) & 1 == 1 {
            let p2 = 1u128 << (i as u128);
            val = val + p2;
            proof {
                assert(bit_of(data@, (bit_offset + i) as nat));
            }
        } else {
            proof {
                assert(!bit_of(data@, (bit_offset + i) as nat));
            }
        }
        i = i + 1;
    }
    val
}

} // verus!
