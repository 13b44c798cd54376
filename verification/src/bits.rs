//! Extraction of bit fields from integers.

use vstd::prelude::*;
use vstd::arithmetic::power2::{pow2, lemma_pow2_unfold, lemma2_to64, lemma_pow2_pos};
use vstd::arithmetic::div_mod::lemma_fundamental_div_mod_converse;
use vstd::bits::lemma_u128_shr_is_div;

verus! {

/// A mask of the lowest `bits` bits of a `u128`, all bits if `bits` is 128 or
/// more.
pub open spec fn spec_bit_mask(bits: usize) -> u128 {
    if bits >= 128 {
        u128::MAX
    } else {
        ((1u128 << (bits as u128)) - 1) as u128
    }
}

/// The `bits` bits of `value` starting at bit `start`.
pub open spec fn spec_extract_bits(value: u128, start: usize, bits: usize) -> u128 {
    (value >> (start as u128)) & spec_bit_mask(bits)
}

/// Shifting one more bit into a mask gives the mask that is one bit wider.
proof fn lemma_bit_mask_step(i: usize)
    requires
        i < usize::MAX,
    ensures
        spec_bit_mask((i + 1) as usize) == ((spec_bit_mask(i) << 1u128) | 1u128),
{
    if i >= 128 {
        assert(((u128::MAX << 1u128) | 1u128) == u128::MAX) by (bit_vector);
    } else if i == 127 {
        assert((((((1u128 << 127u128) - 1) as u128) << 1u128) | 1u128) == u128::MAX) by (bit_vector);
    } else {
        let j = i as u128;
        let k = (i + 1) as u128;
        assert((((((1u128 << j) - 1) as u128) << 1u128) | 1u128) == ((1u128 << k) - 1) as u128)
            by (bit_vector)
            requires
                j < 127,
                k == j + 1,
        ;
    }
}

/// Returns a mask of the lowest `bits` bits, all bits if `bits` is 128 or
/// more.
pub fn bit_mask(bits: usize) -> (m: u128)
    ensures
        m == spec_bit_mask(bits),
{
    let mut m: u128 = 0;
    let mut i: usize = 0;
    assert(spec_bit_mask(0) == 0) by {
        assert(((1u128 << 0u128) - 1) as u128 == 0) by (bit_vector);
    }
    while i < bits
        invariant
            i <= bits,
            m == spec_bit_mask(i),
        decreases bits - i,
    {
        proof {
            lemma_bit_mask_step(i);
        }
        m = (m << 1) | 1;
        i += 1;
    }
    m
}

/// Returns the `bits` bits of `value` starting at bit `start`.
pub fn extract_bits(value: u128, start: usize, bits: usize) -> (r: u128)
    requires
        start < 128,
    ensures
        r == spec_extract_bits(value, start, bits),
{
    (value >> start) & bit_mask(bits)
}

/// A bit field narrower than an integer type fits in that type.
proof fn lemma_extract_fits(value: u128, start: usize, bits: usize)
    ensures
        bits < 8 ==> spec_extract_bits(value, start, bits) <= u8::MAX,
        bits < 16 ==> spec_extract_bits(value, start, bits) <= u16::MAX,
        bits < 32 ==> spec_extract_bits(value, start, bits) <= u32::MAX,
        bits < 64 ==> spec_extract_bits(value, start, bits) <= u64::MAX,
{
    let v = value >> (start as u128);
    let b = bits as u128;
    if bits < 64 {
        assert(b < 64 ==> (v & (((1u128 << b) - 1) as u128)) < (1u128 << b)) by (bit_vector);
        assert(b < 64 ==> (1u128 << b) <= (1u128 << 64u128)) by (bit_vector);
        assert((1u128 << 64u128) == 0x1_0000_0000_0000_0000u128) by (bit_vector);
    }
    if bits < 32 {
        assert(b < 32 ==> (1u128 << b) <= (1u128 << 32u128)) by (bit_vector);
        assert((1u128 << 32u128) == 0x1_0000_0000u128) by (bit_vector);
    }
    if bits < 16 {
        assert(b < 16 ==> (1u128 << b) <= 0x1_0000u128) by (bit_vector);
    }
    if bits < 8 {
        assert(b < 8 ==> (1u128 << b) <= 0x100u128) by (bit_vector);
    }
}

/// The integer that the `bits` bits of `value` from bit `start` on stand
/// for: `value` divided by 2^start, modulo 2^bits.
pub open spec fn bit_field(value: int, start: nat, bits: nat) -> int {
    (value / pow2(start) as int) % pow2(bits) as int
}

/// Shifting 1 left by `b` gives 2^b.
proof fn lemma_one_shl_is_pow2(b: u128)
    requires
        b < 128,
    ensures
        (1u128 << b) as nat == pow2(b as nat),
    decreases b,
{
    if b == 0 {
        assert(1u128 << 0u128 == 1) by (bit_vector);
        assert(pow2(0) == 1) by {
            lemma2_to64();
        }
    } else {
        lemma_one_shl_is_pow2((b - 1) as u128);
        assert((1u128 << b) == 2 * (1u128 << ((b - 1) as u128))) by (bit_vector)
            requires
                0 < b < 128,
        ;
        lemma_pow2_unfold(b as nat);
    }
}

/// Shifting `x` left by `b` bits, where that doesn't overflow, multiplies it
/// by 2^b.
proof fn lemma_shl_is_mul(x: u128, b: u128)
    requires
        b < 128,
        x * pow2(b as nat) <= u128::MAX,
    ensures
        (x << b) as int == x * pow2(b as nat),
    decreases b,
{
    if b == 0 {
        assert(x << 0u128 == x) by (bit_vector);
        assert(pow2(0) == 1) by {
            lemma2_to64();
        }
        assert(pow2(b as nat) == 1);
        assert(x * pow2(b as nat) == x) by (nonlinear_arith)
            requires
                pow2(b as nat) == 1,
        ;
        assert((x << b) == x);
    } else {
        let c = (b - 1) as u128;
        lemma_pow2_unfold(b as nat);
        lemma_pow2_pos(c as nat);
        assert(x * pow2(c as nat) <= x * pow2(b as nat)) by (nonlinear_arith)
            requires
                pow2(b as nat) == 2 * pow2(c as nat),
        ;
        lemma_shl_is_mul(x, c);
        let y = x << c;
        assert(x << b == y << 1u128) by (bit_vector)
            requires
                0 < b < 128,
                c == b - 1,
                y == x << c,
        ;
        assert(x * pow2(b as nat) == 2 * (x * pow2(c as nat))) by (nonlinear_arith)
            requires
                pow2(b as nat) == 2 * pow2(c as nat),
        ;
        assert(y <= 0x7fff_ffff_ffff_ffff_ffff_ffff_ffff_ffffu128);
        assert(y << 1u128 == 2 * y) by (bit_vector)
            requires
                y <= 0x7fff_ffff_ffff_ffff_ffff_ffff_ffff_ffffu128,
        ;
        assert((x << b) as int == 2 * (y as int));
        assert(y as int == x * pow2(c as nat));
    }
}

/// Extracting a bit field is dividing by 2^start and taking the remainder
/// modulo 2^bits.
proof fn lemma_extract_is_bit_field(value: u128, start: usize, bits: usize)
    requires
        start < 128,
        bits < 128,
    ensures
        spec_extract_bits(value, start, bits) as int == bit_field(value as int, start as nat, bits as nat),
{
    let s = start as u128;
    let b = bits as u128;
    let w = value >> s;
    lemma_u128_shr_is_div(value, s);
    lemma_one_shl_is_pow2(b);
    let m = w & (((1u128 << b) - 1) as u128);
    let hi = w >> b;
    assert(m < (1u128 << b)) by (bit_vector)
        requires
            b < 128,
            m == w & (((1u128 << b) - 1) as u128),
    ;
    assert(m + (hi << b) == w) by (bit_vector)
        requires
            b < 128,
            m == w & (((1u128 << b) - 1) as u128),
            hi == w >> b,
    ;
    lemma_u128_shr_is_div(w, b);
    lemma_pow2_pos(b as nat);
    assert(hi * pow2(b as nat) <= w) by {
        vstd::arithmetic::div_mod::lemma_fundamental_div_mod(w as int, pow2(b as nat) as int);
        vstd::arithmetic::div_mod::lemma_mod_pos_bound(w as int, pow2(b as nat) as int);
    }
    lemma_shl_is_mul(hi, b);
    lemma_fundamental_div_mod_converse(
        w as int,
        pow2(b as nat) as int,
        hi as int,
        m as int,
    );
}

/// Extraction of a bit field of an integer, as an integer of type `O`.
pub trait BitFieldExtract<O> {
    /// The arguments for which extraction is defined.
    spec fn extract_defined(start: usize, bits: usize) -> bool;

    /// The result of extracting `bits` bits starting at bit `start`.
    spec fn spec_extract(&self, start: usize, bits: usize) -> O;

    /// Extracts `bits` bits starting at bit `start`.
    fn extract(&self, start: usize, bits: usize) -> (r: O)
        requires
            Self::extract_defined(start, bits),
        ensures
            r == self.spec_extract(start, bits),
    ;
}

impl BitFieldExtract<u8> for u8 {
    open spec fn extract_defined(start: usize, bits: usize) -> bool {
        start < 8 && bits < 8
    }

    open spec fn spec_extract(&self, start: usize, bits: usize) -> u8 {
        spec_extract_bits(*self as u128, start, bits) as u8
    }

    fn extract(&self, start: usize, bits: usize) -> (r: u8) {
        let v = extract_bits(*self as u128, start, bits);
        proof {
            lemma_extract_fits(*self as u128, start, bits);
        }
        v as u8
    }
}

impl BitFieldExtract<bool> for u8 {
    open spec fn extract_defined(start: usize, bits: usize) -> bool {
        start < 8 && bits == 1
    }

    open spec fn spec_extract(&self, start: usize, bits: usize) -> bool {
        spec_extract_bits(*self as u128, start, bits) != 0
    }

    fn extract(&self, start: usize, bits: usize) -> (r: bool) {
        extract_bits(*self as u128, start, bits) != 0
    }
}

impl BitFieldExtract<u8> for u16 {
    open spec fn extract_defined(start: usize, bits: usize) -> bool {
        start < 16 && bits < 8
    }

    open spec fn spec_extract(&self, start: usize, bits: usize) -> u8 {
        spec_extract_bits(*self as u128, start, bits) as u8
    }

    fn extract(&self, start: usize, bits: usize) -> (r: u8) {
        let v = extract_bits(*self as u128, start, bits);
        proof {
            lemma_extract_fits(*self as u128, start, bits);
        }
        v as u8
    }
}

impl BitFieldExtract<u16> for u16 {
    open spec fn extract_defined(start: usize, bits: usize) -> bool {
        start < 16 && bits < 16
    }

    open spec fn spec_extract(&self, start: usize, bits: usize) -> u16 {
        spec_extract_bits(*self as u128, start, bits) as u16
    }

    fn extract(&self, start: usize, bits: usize) -> (r: u16) {
        let v = extract_bits(*self as u128, start, bits);
        proof {
            lemma_extract_fits(*self as u128, start, bits);
        }
        v as u16
    }
}

impl BitFieldExtract<bool> for u16 {
    open spec fn extract_defined(start: usize, bits: usize) -> bool {
        start < 16 && bits == 1
    }

    open spec fn spec_extract(&self, start: usize, bits: usize) -> bool {
        spec_extract_bits(*self as u128, start, bits) != 0
    }

    fn extract(&self, start: usize, bits: usize) -> (r: bool) {
        extract_bits(*self as u128, start, bits) != 0
    }
}

impl BitFieldExtract<u8> for u32 {
    open spec fn extract_defined(start: usize, bits: usize) -> bool {
        start < 32 && bits < 8
    }

    open spec fn spec_extract(&self, start: usize, bits: usize) -> u8 {
        spec_extract_bits(*self as u128, start, bits) as u8
    }

    fn extract(&self, start: usize, bits: usize) -> (r: u8) {
        let v = extract_bits(*self as u128, start, bits);
        proof {
            lemma_extract_fits(*self as u128, start, bits);
        }
        v as u8
    }
}

impl BitFieldExtract<u16> for u32 {
    open spec fn extract_defined(start: usize, bits: usize) -> bool {
        start < 32 && bits < 16
    }

    open spec fn spec_extract(&self, start: usize, bits: usize) -> u16 {
        spec_extract_bits(*self as u128, start, bits) as u16
    }

    fn extract(&self, start: usize, bits: usize) -> (r: u16) {
        let v = extract_bits(*self as u128, start, bits);
        proof {
            lemma_extract_fits(*self as u128, start, bits);
        }
        v as u16
    }
}

impl BitFieldExtract<u32> for u32 {
    open spec fn extract_defined(start: usize, bits: usize) -> bool {
        start < 32 && bits < 32
    }

    open spec fn spec_extract(&self, start: usize, bits: usize) -> u32 {
        spec_extract_bits(*self as u128, start, bits) as u32
    }

    fn extract(&self, start: usize, bits: usize) -> (r: u32) {
        let v = extract_bits(*self as u128, start, bits);
        proof {
            lemma_extract_fits(*self as u128, start, bits);
        }
        v as u32
    }
}

impl BitFieldExtract<bool> for u32 {
    open spec fn extract_defined(start: usize, bits: usize) -> bool {
        start < 32 && bits == 1
    }

    open spec fn spec_extract(&self, start: usize, bits: usize) -> bool {
        spec_extract_bits(*self as u128, start, bits) != 0
    }

    fn extract(&self, start: usize, bits: usize) -> (r: bool) {
        extract_bits(*self as u128, start, bits) != 0
    }
}

impl BitFieldExtract<u8> for u64 {
    open spec fn extract_defined(start: usize, bits: usize) -> bool {
        start < 64 && bits < 8
    }

    open spec fn spec_extract(&self, start: usize, bits: usize) -> u8 {
        spec_extract_bits(*self as u128, start, bits) as u8
    }

    fn extract(&self, start: usize, bits: usize) -> (r: u8) {
        let v = extract_bits(*self as u128, start, bits);
        proof {
            lemma_extract_fits(*self as u128, start, bits);
        }
        v as u8
    }
}

impl BitFieldExtract<u16> for u64 {
    open spec fn extract_defined(start: usize, bits: usize) -> bool {
        start < 64 && bits < 16
    }

    open spec fn spec_extract(&self, start: usize, bits: usize) -> u16 {
        spec_extract_bits(*self as u128, start, bits) as u16
    }

    fn extract(&self, start: usize, bits: usize) -> (r: u16) {
        let v = extract_bits(*self as u128, start, bits);
        proof {
            lemma_extract_fits(*self as u128, start, bits);
        }
        v as u16
    }
}

impl BitFieldExtract<u32> for u64 {
    open spec fn extract_defined(start: usize, bits: usize) -> bool {
        start < 64 && bits < 32
    }

    open spec fn spec_extract(&self, start: usize, bits: usize) -> u32 {
        spec_extract_bits(*self as u128, start, bits) as u32
    }

    fn extract(&self, start: usize, bits: usize) -> (r: u32) {
        let v = extract_bits(*self as u128, start, bits);
        proof {
            lemma_extract_fits(*self as u128, start, bits);
        }
        v as u32
    }
}

impl BitFieldExtract<u64> for u64 {
    open spec fn extract_defined(start: usize, bits: usize) -> bool {
        start < 64 && bits < 64
    }

    open spec fn spec_extract(&self, start: usize, bits: usize) -> u64 {
        spec_extract_bits(*self as u128, start, bits) as u64
    }

    fn extract(&self, start: usize, bits: usize) -> (r: u64) {
        let v = extract_bits(*self as u128, start, bits);
        proof {
            lemma_extract_fits(*self as u128, start, bits);
        }
        v as u64
    }
}

impl BitFieldExtract<bool> for u64 {
    open spec fn extract_defined(start: usize, bits: usize) -> bool {
        start < 64 && bits == 1
    }

    open spec fn spec_extract(&self, start: usize, bits: usize) -> bool {
        spec_extract_bits(*self as u128, start, bits) != 0
    }

    fn extract(&self, start: usize, bits: usize) -> (r: bool) {
        extract_bits(*self as u128, start, bits) != 0
    }
}

impl BitFieldExtract<u8> for u128 {
    open spec fn extract_defined(start: usize, bits: usize) -> bool {
        start < 128 && bits < 8
    }

    open spec fn spec_extract(&self, start: usize, bits: usize) -> u8 {
        spec_extract_bits(*self, start, bits) as u8
    }

    fn extract(&self, start: usize, bits: usize) -> (r: u8) {
        let v = extract_bits(*self, start, bits);
        proof {
            lemma_extract_fits(*self as u128, start, bits);
        }
        v as u8
    }
}

impl BitFieldExtract<u16> for u128 {
    open spec fn extract_defined(start: usize, bits: usize) -> bool {
        start < 128 && bits < 16
    }

    open spec fn spec_extract(&self, start: usize, bits: usize) -> u16 {
        spec_extract_bits(*self, start, bits) as u16
    }

    fn extract(&self, start: usize, bits: usize) -> (r: u16) {
        let v = extract_bits(*self, start, bits);
        proof {
            lemma_extract_fits(*self as u128, start, bits);
        }
        v as u16
    }
}

impl BitFieldExtract<u32> for u128 {
    open spec fn extract_defined(start: usize, bits: usize) -> bool {
        start < 128 && bits < 32
    }

    open spec fn spec_extract(&self, start: usize, bits: usize) -> u32 {
        spec_extract_bits(*self, start, bits) as u32
    }

    fn extract(&self, start: usize, bits: usize) -> (r: u32) {
        let v = extract_bits(*self, start, bits);
        proof {
            lemma_extract_fits(*self as u128, start, bits);
        }
        v as u32
    }
}

impl BitFieldExtract<u64> for u128 {
    open spec fn extract_defined(start: usize, bits: usize) -> bool {
        start < 128 && bits < 64
    }

    open spec fn spec_extract(&self, start: usize, bits: usize) -> u64 {
        spec_extract_bits(*self, start, bits) as u64
    }

    fn extract(&self, start: usize, bits: usize) -> (r: u64) {
        let v = extract_bits(*self, start, bits);
        proof {
            lemma_extract_fits(*self as u128, start, bits);
        }
        v as u64
    }
}

impl BitFieldExtract<u128> for u128 {
    open spec fn extract_defined(start: usize, bits: usize) -> bool {
        start < 128 && bits < 128
    }

    open spec fn spec_extract(&self, start: usize, bits: usize) -> u128 {
        spec_extract_bits(*self, start, bits) as u128
    }

    fn extract(&self, start: usize, bits: usize) -> (r: u128) {
        let v = extract_bits(*self, start, bits);
        v
    }
}

impl BitFieldExtract<bool> for u128 {
    open spec fn extract_defined(start: usize, bits: usize) -> bool {
        start < 128 && bits == 1
    }

    open spec fn spec_extract(&self, start: usize, bits: usize) -> bool {
        spec_extract_bits(*self, start, bits) != 0
    }

    fn extract(&self, start: usize, bits: usize) -> (r: bool) {
        extract_bits(*self, start, bits) != 0
    }
}

/// A bit is 0 or 1.
proof fn lemma_bit_field_one(value: int, start: nat)
    ensures
        0 <= bit_field(value, start, 1) <= 1,
{
    assert(pow2(1) == 2) by {
        lemma2_to64();
    }
}

/// Every extraction gives the integer that the chosen bits of the value
/// stand for: the value divided by 2^start, modulo 2^bits; so it is below
/// 2^bits. Extracting a `bool` tells whether the bit at `start` is set.
pub proof fn lemma_extract_is_bit_field_for_all()
    ensures
        forall|v: u8, start: usize, bits: usize|
            start < 8 && bits < 8 ==> #[trigger] <u8 as BitFieldExtract<u8>>::spec_extract(&v, start, bits) as int
                == bit_field(v as int, start as nat, bits as nat),
        forall|v: u16, start: usize, bits: usize|
            start < 16 && bits < 8 ==> #[trigger] <u16 as BitFieldExtract<u8>>::spec_extract(&v, start, bits) as int
                == bit_field(v as int, start as nat, bits as nat),
        forall|v: u16, start: usize, bits: usize|
            start < 16 && bits < 16 ==> #[trigger] <u16 as BitFieldExtract<u16>>::spec_extract(&v, start, bits) as int
                == bit_field(v as int, start as nat, bits as nat),
        forall|v: u32, start: usize, bits: usize|
            start < 32 && bits < 8 ==> #[trigger] <u32 as BitFieldExtract<u8>>::spec_extract(&v, start, bits) as int
                == bit_field(v as int, start as nat, bits as nat),
        forall|v: u32, start: usize, bits: usize|
            start < 32 && bits < 16 ==> #[trigger] <u32 as BitFieldExtract<u16>>::spec_extract(&v, start, bits) as int
                == bit_field(v as int, start as nat, bits as nat),
        forall|v: u32, start: usize, bits: usize|
            start < 32 && bits < 32 ==> #[trigger] <u32 as BitFieldExtract<u32>>::spec_extract(&v, start, bits) as int
                == bit_field(v as int, start as nat, bits as nat),
        forall|v: u64, start: usize, bits: usize|
            start < 64 && bits < 8 ==> #[trigger] <u64 as BitFieldExtract<u8>>::spec_extract(&v, start, bits) as int
                == bit_field(v as int, start as nat, bits as nat),
        forall|v: u64, start: usize, bits: usize|
            start < 64 && bits < 16 ==> #[trigger] <u64 as BitFieldExtract<u16>>::spec_extract(&v, start, bits) as int
                == bit_field(v as int, start as nat, bits as nat),
        forall|v: u64, start: usize, bits: usize|
            start < 64 && bits < 32 ==> #[trigger] <u64 as BitFieldExtract<u32>>::spec_extract(&v, start, bits) as int
                == bit_field(v as int, start as nat, bits as nat),
        forall|v: u64, start: usize, bits: usize|
            start < 64 && bits < 64 ==> #[trigger] <u64 as BitFieldExtract<u64>>::spec_extract(&v, start, bits) as int
                == bit_field(v as int, start as nat, bits as nat),
        forall|v: u128, start: usize, bits: usize|
            start < 128 && bits < 8 ==> #[trigger] <u128 as BitFieldExtract<u8>>::spec_extract(&v, start, bits) as int
                == bit_field(v as int, start as nat, bits as nat),
        forall|v: u128, start: usize, bits: usize|
            start < 128 && bits < 16 ==> #[trigger] <u128 as BitFieldExtract<u16>>::spec_extract(&v, start, bits) as int
                == bit_field(v as int, start as nat, bits as nat),
        forall|v: u128, start: usize, bits: usize|
            start < 128 && bits < 32 ==> #[trigger] <u128 as BitFieldExtract<u32>>::spec_extract(&v, start, bits) as int
                == bit_field(v as int, start as nat, bits as nat),
        forall|v: u128, start: usize, bits: usize|
            start < 128 && bits < 64 ==> #[trigger] <u128 as BitFieldExtract<u64>>::spec_extract(&v, start, bits) as int
                == bit_field(v as int, start as nat, bits as nat),
        forall|v: u128, start: usize, bits: usize|
            start < 128 && bits < 128 ==> #[trigger] <u128 as BitFieldExtract<u128>>::spec_extract(&v, start, bits) as int
                == bit_field(v as int, start as nat, bits as nat),
        forall|v: u8, start: usize|
            start < 8 ==> #[trigger] <u8 as BitFieldExtract<bool>>::spec_extract(&v, start, 1)
                == (bit_field(v as int, start as nat, 1) == 1),
        forall|v: u16, start: usize|
            start < 16 ==> #[trigger] <u16 as BitFieldExtract<bool>>::spec_extract(&v, start, 1)
                == (bit_field(v as int, start as nat, 1) == 1),
        forall|v: u32, start: usize|
            start < 32 ==> #[trigger] <u32 as BitFieldExtract<bool>>::spec_extract(&v, start, 1)
                == (bit_field(v as int, start as nat, 1) == 1),
        forall|v: u64, start: usize|
            start < 64 ==> #[trigger] <u64 as BitFieldExtract<bool>>::spec_extract(&v, start, 1)
                == (bit_field(v as int, start as nat, 1) == 1),
        forall|v: u128, start: usize|
            start < 128 ==> #[trigger] <u128 as BitFieldExtract<bool>>::spec_extract(&v, start, 1)
                == (bit_field(v as int, start as nat, 1) == 1),
{
    assert forall|v: u8, start: usize, bits: usize|
        start < 8 && bits < 8 implies #[trigger] <u8 as BitFieldExtract<u8>>::spec_extract(&v, start, bits) as int
            == bit_field(v as int, start as nat, bits as nat) by {
        lemma_extract_is_bit_field(v as u128, start, bits);
        lemma_extract_fits(v as u128, start, bits);
    }
    assert forall|v: u16, start: usize, bits: usize|
        start < 16 && bits < 8 implies #[trigger] <u16 as BitFieldExtract<u8>>::spec_extract(&v, start, bits) as int
            == bit_field(v as int, start as nat, bits as nat) by {
        lemma_extract_is_bit_field(v as u128, start, bits);
        lemma_extract_fits(v as u128, start, bits);
    }
    assert forall|v: u16, start: usize, bits: usize|
        start < 16 && bits < 16 implies #[trigger] <u16 as BitFieldExtract<u16>>::spec_extract(&v, start, bits) as int
            == bit_field(v as int, start as nat, bits as nat) by {
        lemma_extract_is_bit_field(v as u128, start, bits);
        lemma_extract_fits(v as u128, start, bits);
    }
    assert forall|v: u32, start: usize, bits: usize|
        start < 32 && bits < 8 implies #[trigger] <u32 as BitFieldExtract<u8>>::spec_extract(&v, start, bits) as int
            == bit_field(v as int, start as nat, bits as nat) by {
        lemma_extract_is_bit_field(v as u128, start, bits);
        lemma_extract_fits(v as u128, start, bits);
    }
    assert forall|v: u32, start: usize, bits: usize|
        start < 32 && bits < 16 implies #[trigger] <u32 as BitFieldExtract<u16>>::spec_extract(&v, start, bits) as int
            == bit_field(v as int, start as nat, bits as nat) by {
        lemma_extract_is_bit_field(v as u128, start, bits);
        lemma_extract_fits(v as u128, start, bits);
    }
    assert forall|v: u32, start: usize, bits: usize|
        start < 32 && bits < 32 implies #[trigger] <u32 as BitFieldExtract<u32>>::spec_extract(&v, start, bits) as int
            == bit_field(v as int, start as nat, bits as nat) by {
        lemma_extract_is_bit_field(v as u128, start, bits);
        lemma_extract_fits(v as u128, start, bits);
    }
    assert forall|v: u64, start: usize, bits: usize|
        start < 64 && bits < 8 implies #[trigger] <u64 as BitFieldExtract<u8>>::spec_extract(&v, start, bits) as int
            == bit_field(v as int, start as nat, bits as nat) by {
        lemma_extract_is_bit_field(v as u128, start, bits);
        lemma_extract_fits(v as u128, start, bits);
    }
    assert forall|v: u64, start: usize, bits: usize|
        start < 64 && bits < 16 implies #[trigger] <u64 as BitFieldExtract<u16>>::spec_extract(&v, start, bits) as int
            == bit_field(v as int, start as nat, bits as nat) by {
        lemma_extract_is_bit_field(v as u128, start, bits);
        lemma_extract_fits(v as u128, start, bits);
    }
    assert forall|v: u64, start: usize, bits: usize|
        start < 64 && bits < 32 implies #[trigger] <u64 as BitFieldExtract<u32>>::spec_extract(&v, start, bits) as int
            == bit_field(v as int, start as nat, bits as nat) by {
        lemma_extract_is_bit_field(v as u128, start, bits);
        lemma_extract_fits(v as u128, start, bits);
    }
    assert forall|v: u64, start: usize, bits: usize|
        start < 64 && bits < 64 implies #[trigger] <u64 as BitFieldExtract<u64>>::spec_extract(&v, start, bits) as int
            == bit_field(v as int, start as nat, bits as nat) by {
        lemma_extract_is_bit_field(v as u128, start, bits);
        lemma_extract_fits(v as u128, start, bits);
    }
    assert forall|v: u128, start: usize, bits: usize|
        start < 128 && bits < 8 implies #[trigger] <u128 as BitFieldExtract<u8>>::spec_extract(&v, start, bits) as int
            == bit_field(v as int, start as nat, bits as nat) by {
        lemma_extract_is_bit_field(v as u128, start, bits);
        lemma_extract_fits(v as u128, start, bits);
    }
    assert forall|v: u128, start: usize, bits: usize|
        start < 128 && bits < 16 implies #[trigger] <u128 as BitFieldExtract<u16>>::spec_extract(&v, start, bits) as int
            == bit_field(v as int, start as nat, bits as nat) by {
        lemma_extract_is_bit_field(v as u128, start, bits);
        lemma_extract_fits(v as u128, start, bits);
    }
    assert forall|v: u128, start: usize, bits: usize|
        start < 128 && bits < 32 implies #[trigger] <u128 as BitFieldExtract<u32>>::spec_extract(&v, start, bits) as int
            == bit_field(v as int, start as nat, bits as nat) by {
        lemma_extract_is_bit_field(v as u128, start, bits);
        lemma_extract_fits(v as u128, start, bits);
    }
    assert forall|v: u128, start: usize, bits: usize|
        start < 128 && bits < 64 implies #[trigger] <u128 as BitFieldExtract<u64>>::spec_extract(&v, start, bits) as int
            == bit_field(v as int, start as nat, bits as nat) by {
        lemma_extract_is_bit_field(v as u128, start, bits);
        lemma_extract_fits(v as u128, start, bits);
    }
    assert forall|v: u128, start: usize, bits: usize|
        start < 128 && bits < 128 implies #[trigger] <u128 as BitFieldExtract<u128>>::spec_extract(&v, start, bits) as int
            == bit_field(v as int, start as nat, bits as nat) by {
        lemma_extract_is_bit_field(v as u128, start, bits);
        lemma_extract_fits(v as u128, start, bits);
    }
    assert forall|v: u8, start: usize|
        start < 8 implies #[trigger] <u8 as BitFieldExtract<bool>>::spec_extract(&v, start, 1)
            == (bit_field(v as int, start as nat, 1) == 1) by {
        lemma_extract_is_bit_field(v as u128, start, 1);
        lemma_bit_field_one(v as int, start as nat);
    }
    assert forall|v: u16, start: usize|
        start < 16 implies #[trigger] <u16 as BitFieldExtract<bool>>::spec_extract(&v, start, 1)
            == (bit_field(v as int, start as nat, 1) == 1) by {
        lemma_extract_is_bit_field(v as u128, start, 1);
        lemma_bit_field_one(v as int, start as nat);
    }
    assert forall|v: u32, start: usize|
        start < 32 implies #[trigger] <u32 as BitFieldExtract<bool>>::spec_extract(&v, start, 1)
            == (bit_field(v as int, start as nat, 1) == 1) by {
        lemma_extract_is_bit_field(v as u128, start, 1);
        lemma_bit_field_one(v as int, start as nat);
    }
    assert forall|v: u64, start: usize|
        start < 64 implies #[trigger] <u64 as BitFieldExtract<bool>>::spec_extract(&v, start, 1)
            == (bit_field(v as int, start as nat, 1) == 1) by {
        lemma_extract_is_bit_field(v as u128, start, 1);
        lemma_bit_field_one(v as int, start as nat);
    }
    assert forall|v: u128, start: usize|
        start < 128 implies #[trigger] <u128 as BitFieldExtract<bool>>::spec_extract(&v, start, 1)
            == (bit_field(v as int, start as nat, 1) == 1) by {
        lemma_extract_is_bit_field(v as u128, start, 1);
        lemma_bit_field_one(v as int, start as nat);
    }
}

} // verus!
