use vstd::arithmetic::power2::*;
use vstd::bits::*;
use vstd::prelude::*;

verus! {

/// Widest bit pattern a layout may describe.
pub const MAX_TOTAL_BITS: u32 = 64;

/// Errors reported by the codec.
#[derive(Clone, Copy, Debug, PartialEq, Eq, Structural)]
pub enum CodecError {
    /// The input is not a hexadecimal number.
    InvalidHex,
    /// The input is not a decimal number.
    InvalidFloat,
    /// The layout needs more than 64 bits.
    TooWide,
    /// The layout has no exponent bits.
    NoExponent,
    /// The layout has no mantissa bits, so it has no NaN pattern.
    NanUnrepresentable,
}

/// The split of a bit pattern into `[sign: 1][exponent][mantissa]`, most
/// significant bit first.
#[derive(Clone, Copy, Debug, PartialEq, Eq, Structural)]
pub struct Layout {
    pub exponent_bits: u8,
    pub mantissa_bits: u8,
}

/// `2^k` as a machine integer.
pub fn pow2_u64(k: u32) -> (r: u64)
    requires
        k < 64,
    ensures
        r == pow2(k as nat),
        r > 0,
{
    proof {
        lemma_pow2_pos(k as nat);
        lemma_u64_pow2_no_overflow(k as nat);
        lemma_u64_shl_is_mul(1, k as u64);
    }
    1u64 << k
}

impl Layout {
    /// Width of a whole pattern.
    pub open spec fn total(self) -> nat {
        (1 + self.exponent_bits + self.mantissa_bits) as nat
    }

    /// A layout has an exponent field and fits in 64 bits.
    pub open spec fn wf(self) -> bool {
        &&& self.exponent_bits >= 1
        &&& self.total() <= MAX_TOTAL_BITS
    }

    pub open spec fn bias(self) -> int {
        pow2((self.exponent_bits - 1) as nat) - 1
    }

    /// The all-ones exponent field, reserved for infinities and NaN.
    pub open spec fn exponent_mask(self) -> nat {
        (pow2(self.exponent_bits as nat) - 1) as nat
    }

    /// Smallest exponent of a normal number (also the exponent of subnormals).
    pub open spec fn min_exponent(self) -> int {
        1 - self.bias()
    }

    /// Largest exponent of a finite normal number.
    pub open spec fn max_exponent(self) -> int {
        self.exponent_mask() - 1 - self.bias()
    }

    /// Number of hexadecimal digits that hold a whole pattern.
    pub open spec fn hex_digits(self) -> nat {
        (self.total() + 3) as nat / 4
    }

    /// Builds a layout, refusing one wider than 64 bits and one without
    /// exponent bits.
    pub fn new(exponent_bits: u8, mantissa_bits: u8) -> (r: Result<Layout, CodecError>)
        ensures
            1 + exponent_bits + mantissa_bits > MAX_TOTAL_BITS ==> r == Err::<Layout, CodecError>(
                CodecError::TooWide,
            ),
            1 + exponent_bits + mantissa_bits <= MAX_TOTAL_BITS && exponent_bits == 0 ==> r == Err::<
                Layout,
                CodecError,
            >(CodecError::NoExponent),
            1 + exponent_bits + mantissa_bits <= MAX_TOTAL_BITS && exponent_bits >= 1 ==> r == Ok::<
                Layout,
                CodecError,
            >(Layout { exponent_bits, mantissa_bits }),
            r is Ok ==> r->Ok_0.wf(),
    {
        if 1 + exponent_bits as u32 + mantissa_bits as u32 > MAX_TOTAL_BITS {
            Err(CodecError::TooWide)
        } else if exponent_bits == 0 {
            Err(CodecError::NoExponent)
        } else {
            Ok(Layout { exponent_bits, mantissa_bits })
        }
    }

    pub fn total_bits(&self) -> (r: u32)
        ensures
            r == self.total(),
    {
        1 + self.exponent_bits as u32 + self.mantissa_bits as u32
    }

    pub fn hex_len(&self) -> (r: usize)
        requires
            self.wf(),
        ensures
            r == self.hex_digits(),
    {
        ((self.total_bits() + 3) / 4) as usize
    }

    pub fn bias_value(&self) -> (r: i64)
        requires
            self.wf(),
        ensures
            r == self.bias(),
            0 <= r < 0x4000_0000_0000_0000,
    {
        proof {
            lemma_pow2_pos((self.exponent_bits - 1) as nat);
            lemma2_to64();
            lemma2_to64_rest();
            if self.exponent_bits < 63 {
                lemma_pow2_strictly_increases((self.exponent_bits - 1) as nat, 62);
            }
        }
        pow2_u64((self.exponent_bits - 1) as u32) as i64 - 1
    }
}

} // verus!
