use vstd::arithmetic::power2::*;
use vstd::prelude::*;

use crate::codec::{bit_markers, decode, decode_spec, encode, encode_spec, markers, Decoded};
use crate::format::FloatFormat;
use crate::hex::{is_hex_u64, hex_string, hex_value, parse_hex_window, to_hex, unsigned_digits, window};
use crate::layout::{CodecError, Layout, MAX_TOTAL_BITS};
use crate::rounding::lemma_pow2_le;

verus! {

/// The layout of a 64-bit IEEE-754 double.
pub open spec fn double_layout() -> Layout {
    Layout { exponent_bits: 11, mantissa_bits: 52 }
}

/// The pattern that hexadecimal text stands for under widths `e` and `m`:
/// only the first `ceil((1 + e + m) / 4)` characters are read.
pub open spec fn hex_pattern(hex: Seq<char>, l: Layout) -> nat {
    hex_value(unsigned_digits(window(hex, l.hex_digits())))
}

pub open spec fn hex_is_valid(hex: Seq<char>, l: Layout) -> bool {
    is_hex_u64(window(hex, l.hex_digits()))
}

/// Why widths `e` and `m` make no layout, if they do not.
pub open spec fn layout_outcome(e: u8, m: u8) -> Result<Layout, CodecError> {
    if 1 + e + m > MAX_TOTAL_BITS {
        Err(CodecError::TooWide)
    } else if e == 0 {
        Err(CodecError::NoExponent)
    } else {
        Ok(Layout { exponent_bits: e, mantissa_bits: m })
    }
}

/// What decoding hexadecimal text under widths `e` and `m` gives.
pub open spec fn hex_outcome(hex: Seq<char>, e: u8, m: u8) -> Result<Decoded, CodecError> {
    match layout_outcome(e, m) {
        Err(err) => Err(err),
        Ok(l) => if hex_is_valid(hex, l) {
            Ok(decode_spec(l, hex_pattern(hex, l)))
        } else {
            Err(CodecError::InvalidHex)
        },
    }
}

/// The per-bit display after decoding, one element per bit of the widths:
/// the pattern's bits, or all zeros on any error.
pub open spec fn bits_after(hex: Seq<char>, e: u8, m: u8) -> Seq<u8> {
    match layout_outcome(e, m) {
        Err(_) => Seq::new((1 + e + m) as nat, |i: int| 0u8),
        Ok(l) => if hex_is_valid(hex, l) {
            markers(l, hex_pattern(hex, l))
        } else {
            Seq::new(l.total(), |i: int| 0u8)
        },
    }
}

/// The pattern under widths `e` and `m` nearest to the double whose bits are
/// `value_bits`.
pub open spec fn f64_outcome(value_bits: u64, e: u8, m: u8) -> Result<nat, CodecError> {
    match layout_outcome(e, m) {
        Err(err) => Err(err),
        Ok(l) => match encode_spec(l, decode_spec(double_layout(), value_bits as nat)) {
            Some(b) => Ok(b),
            None => Err(CodecError::NanUnrepresentable),
        },
    }
}

/// Decodes hexadecimal text under widths `exponent_bits` and
/// `mantissa_bits`, reading only as many characters as the pattern needs.
pub fn decode_hex(input: &str, exponent_bits: u8, mantissa_bits: u8) -> (r: Result<
    Decoded,
    CodecError,
>)
    ensures
        r == hex_outcome(input@, exponent_bits, mantissa_bits),
{
    let layout = match Layout::new(exponent_bits, mantissa_bits) {
        Ok(l) => l,
        Err(err) => return Err(err),
    };
    match parse_hex_window(input, layout.hex_len()) {
        Ok(bits) => Ok(decode(&layout, bits)),
        Err(err) => Err(err),
    }
}

/// Encodes the double whose IEEE-754 bits are `value_bits` under widths
/// `exponent_bits` and `mantissa_bits`.
pub fn encode_f64_bits(value_bits: u64, exponent_bits: u8, mantissa_bits: u8) -> (r: Result<
    u64,
    CodecError,
>)
    ensures
        match f64_outcome(value_bits, exponent_bits, mantissa_bits) {
            Ok(b) => r == Ok::<u64, CodecError>(b as u64) && b <= u64::MAX,
            Err(err) => r == Err::<u64, CodecError>(err),
        },
{
    let layout = match Layout::new(exponent_bits, mantissa_bits) {
        Ok(l) => l,
        Err(err) => return Err(err),
    };
    let double = Layout { exponent_bits: 11, mantissa_bits: 52 };
    proof {
        lemma2_to64_rest();
        lemma_pow2_le(layout.total(), 64);
    }
    encode(&layout, decode(&double, value_bits))
}

fn zeros(n: u32) -> (r: Vec<u8>)
    ensures
        r@ == Seq::new(n as nat, |i: int| 0u8),
{
    let mut r: Vec<u8> = Vec::new();
    let mut i: u32 = 0;
    while i < n
        invariant
            i <= n,
            r@ == Seq::new(i as nat, |j: int| 0u8),
        decreases n - i,
    {
        r.push(0);
        i = i + 1;
        assert(r@ =~= Seq::new(i as nat, |j: int| 0u8));
    }
    r
}

/// The state of an editor: hexadecimal text, the active widths and named
/// layout, and the bits of the last decoded pattern.
pub struct Converter {
    pub hex_input: String,
    pub exponent_bits: u8,
    pub mantissa_bits: u8,
    pub current_format: FloatFormat,
    pub bits: Vec<u8>,
}

impl Converter {
    /// fp32, with `hex_input` decoded.
    pub fn new(hex_input: String) -> (r: (Converter, Result<Decoded, CodecError>))
        ensures
            r.0.hex_input@ == hex_input@,
            r.0.exponent_bits == 8,
            r.0.mantissa_bits == 23,
            r.0.current_format == FloatFormat::Fp32,
            r.0.bits@ == bits_after(hex_input@, 8, 23),
            r.1 == hex_outcome(hex_input@, 8, 23),
    {
        let (exponent_bits, mantissa_bits) = FloatFormat::Fp32.get_params();
        let mut c = Converter {
            hex_input,
            exponent_bits,
            mantissa_bits,
            current_format: FloatFormat::Fp32,
            bits: zeros(32),
        };
        let r = c.convert_hex_to_float();
        (c, r)
    }

    /// Decodes `hex_input` under the active widths and refreshes `bits`.
    pub fn convert_hex_to_float(&mut self) -> (r: Result<Decoded, CodecError>)
        ensures
            r == hex_outcome(old(self).hex_input@, old(self).exponent_bits, old(self).mantissa_bits),
            final(self).bits@ == bits_after(
                old(self).hex_input@,
                old(self).exponent_bits,
                old(self).mantissa_bits,
            ),
            final(self).hex_input == old(self).hex_input,
            final(self).exponent_bits == old(self).exponent_bits,
            final(self).mantissa_bits == old(self).mantissa_bits,
            final(self).current_format == old(self).current_format,
    {
        let layout = match Layout::new(self.exponent_bits, self.mantissa_bits) {
            Ok(l) => l,
            Err(err) => {
                self.bits = zeros(1 + self.exponent_bits as u32 + self.mantissa_bits as u32);
                return Err(err);
            },
        };
        match parse_hex_window(self.hex_input.as_str(), layout.hex_len()) {
            Ok(v) => {
                self.bits = bit_markers(&layout, v);
                Ok(decode(&layout, v))
            },
            Err(err) => {
                self.bits = zeros(layout.total_bits());
                Err(err)
            },
        }
    }

    /// Selects a named layout; any but `Custom` brings its own widths, and
    /// `Custom` keeps the active ones. Then decodes again.
    pub fn set_format(&mut self, format: FloatFormat) -> (r: Result<Decoded, CodecError>)
        ensures
            final(self).current_format == format,
            format != FloatFormat::Custom ==> (final(self).exponent_bits, final(self).mantissa_bits)
                == format.params(),
            format == FloatFormat::Custom ==> final(self).exponent_bits == old(self).exponent_bits
                && final(self).mantissa_bits == old(self).mantissa_bits,
            final(self).hex_input == old(self).hex_input,
            r == hex_outcome(old(self).hex_input@, final(self).exponent_bits, final(self).mantissa_bits),
            final(self).bits@ == bits_after(
                old(self).hex_input@,
                final(self).exponent_bits,
                final(self).mantissa_bits,
            ),
    {
        self.current_format = format;
        if format != FloatFormat::Custom {
            let (e, m) = format.get_params();
            self.exponent_bits = e;
            self.mantissa_bits = m;
        }
        self.convert_hex_to_float()
    }

    /// Takes new widths; where they differ from the active ones, the layout
    /// becomes `Custom` and the text is decoded again (`Some`). Equal widths
    /// change nothing (`None`).
    pub fn update_custom_format(&mut self, exponent_bits: u8, mantissa_bits: u8) -> (r: Option<
        Result<Decoded, CodecError>,
    >)
        ensures
            exponent_bits == old(self).exponent_bits && mantissa_bits == old(self).mantissa_bits
                ==> r is None && *final(self) == *old(self),
            !(exponent_bits == old(self).exponent_bits && mantissa_bits == old(self).mantissa_bits)
                ==> {
                &&& final(self).exponent_bits == exponent_bits
                &&& final(self).mantissa_bits == mantissa_bits
                &&& final(self).current_format == FloatFormat::Custom
                &&& final(self).hex_input == old(self).hex_input
                &&& r == Some(hex_outcome(old(self).hex_input@, exponent_bits, mantissa_bits))
                &&& final(self).bits@ == bits_after(
                    old(self).hex_input@,
                    exponent_bits,
                    mantissa_bits,
                )
            },
    {
        if exponent_bits == self.exponent_bits && mantissa_bits == self.mantissa_bits {
            return None;
        }
        self.exponent_bits = exponent_bits;
        self.mantissa_bits = mantissa_bits;
        self.current_format = FloatFormat::Custom;
        Some(self.convert_hex_to_float())
    }

    /// Encodes the double whose IEEE-754 bits are `value_bits` under the
    /// active widths, writes it to `hex_input` as zero-padded hexadecimal
    /// and decodes it again. On failure nothing changes.
    pub fn convert_float_to_hex(&mut self, value_bits: u64) -> (r: Result<Decoded, CodecError>)
        ensures
            final(self).exponent_bits == old(self).exponent_bits,
            final(self).mantissa_bits == old(self).mantissa_bits,
            final(self).current_format == old(self).current_format,
            match f64_outcome(value_bits, old(self).exponent_bits, old(self).mantissa_bits) {
                Err(err) => r == Err::<Decoded, CodecError>(err) && *final(self) == *old(self),
                Ok(b) => {
                    let l = Layout {
                        exponent_bits: old(self).exponent_bits,
                        mantissa_bits: old(self).mantissa_bits,
                    };
                    &&& final(self).hex_input@ == hex_string(b, l.hex_digits())
                    &&& r == hex_outcome(final(self).hex_input@, l.exponent_bits, l.mantissa_bits)
                    &&& final(self).bits@ == bits_after(
                        final(self).hex_input@,
                        l.exponent_bits,
                        l.mantissa_bits,
                    )
                },
            },
    {
        let bits = match encode_f64_bits(value_bits, self.exponent_bits, self.mantissa_bits) {
            Ok(b) => b,
            Err(err) => return Err(err),
        };
        let layout = Layout { exponent_bits: self.exponent_bits, mantissa_bits: self.mantissa_bits };
        self.hex_input = to_hex(bits, layout.hex_len());
        self.convert_hex_to_float()
    }
}

} // verus!
