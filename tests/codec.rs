use floatbits::{
    bit_markers, decode, decode_hex, encode, encode_f64_bits, parse_hex_window, to_hex,
    CodecError, Converter, Decoded, FloatFormat, InputField, Layout,
};

/// The real number a decoded value stands for, as a double.
fn value_of(d: Decoded) -> f64 {
    match d {
        Decoded::NaN => f64::NAN,
        Decoded::Infinity { negative } => {
            if negative {
                f64::NEG_INFINITY
            } else {
                f64::INFINITY
            }
        }
        Decoded::Number { negative, significand, exponent } => {
            let half = (exponent / 2).clamp(-2000, 2000) as i32;
            let rest = (exponent - exponent / 2).clamp(-2000, 2000) as i32;
            let v = significand as f64 * 2f64.powi(half) * 2f64.powi(rest);
            if negative {
                -v
            } else {
                v
            }
        }
    }
}

fn all_layouts() -> Vec<(u8, u8)> {
    let mut r: Vec<(u8, u8)> = FloatFormat::all().iter().map(|f| f.get_params()).collect();
    r.push((11, 52));
    r.push((3, 4));
    r.push((1, 2));
    r.push((63, 0));
    r
}

fn pattern(e: u8, m: u8, sign: u64, exp: u64, mant: u64) -> u64 {
    let total = 1 + e as u32 + m as u32;
    (sign << (total - 1)) | (exp << m) | mant
}

fn hex_of(e: u8, m: u8, bits: u64) -> String {
    let layout = Layout::new(e, m).unwrap();
    to_hex(bits, layout.hex_len())
}

fn round_trip(e: u8, m: u8, v: f64) -> Decoded {
    let bits = encode_f64_bits(v.to_bits(), e, m).unwrap();
    decode_hex(&hex_of(e, m, bits), e, m).unwrap()
}

#[test]
fn pi_in_fp32() {
    let d = decode_hex("40490fdb", 8, 23).unwrap();
    assert_eq!(d, Decoded::Number { negative: false, significand: 0xc90fdb, exponent: -22 });
    let v = value_of(d);
    assert_eq!(v, 3.1415927410125732);
    assert_eq!((v as f32).to_string(), "3.1415927");
}

#[test]
fn negative_infinity_under_every_layout() {
    for (e, m) in all_layouts() {
        let mask = (1u64 << e) - 1;
        let bits = pattern(e, m, 1, mask, 0);
        assert_eq!(
            decode_hex(&hex_of(e, m, bits), e, m),
            Ok(Decoded::Infinity { negative: true })
        );
        let pos = pattern(e, m, 0, mask, 0);
        assert_eq!(
            decode_hex(&hex_of(e, m, pos), e, m),
            Ok(Decoded::Infinity { negative: false })
        );
    }
}

#[test]
fn nan_under_every_layout() {
    for (e, m) in all_layouts() {
        if m == 0 {
            continue;
        }
        let mask = (1u64 << e) - 1;
        for sign in 0..2u64 {
            for mant in [1u64, (1u64 << m) - 1] {
                let bits = pattern(e, m, sign, mask, mant);
                assert_eq!(decode_hex(&hex_of(e, m, bits), e, m), Ok(Decoded::NaN));
            }
        }
    }
}

#[test]
fn signed_zeros() {
    for (e, m) in all_layouts() {
        let total = 1 + e as u32 + m as u32;
        let pos = decode_hex(&hex_of(e, m, 0), e, m).unwrap();
        let neg = decode_hex(&hex_of(e, m, 1u64 << (total - 1)), e, m).unwrap();
        assert!(matches!(pos, Decoded::Number { negative: false, significand: 0, .. }));
        assert!(matches!(neg, Decoded::Number { negative: true, significand: 0, .. }));
        assert_eq!(value_of(pos), 0.0);
        assert_eq!(value_of(neg), 0.0);
        assert!(value_of(neg).is_sign_negative());
        assert_eq!(encode_f64_bits((-0.0f64).to_bits(), e, m), Ok(1u64 << (total - 1)));
        assert_eq!(encode_f64_bits(0.0f64.to_bits(), e, m), Ok(0));
    }
}

#[test]
fn ue8m0_powers_of_two() {
    let one = decode_hex("7f", 8, 0).unwrap();
    assert_eq!(one, Decoded::Number { negative: false, significand: 1, exponent: 0 });
    assert_eq!(value_of(one), 1.0);
    let two = decode_hex("80", 8, 0).unwrap();
    assert_eq!(value_of(two), 2.0);
    assert_eq!(value_of(decode_hex("00", 8, 0).unwrap()), 0.0);
    assert_eq!(decode_hex("ff", 8, 0), Ok(Decoded::Infinity { negative: false }));
}

#[test]
fn invalid_hex_clears_bits() {
    assert_eq!(decode_hex("zz", 8, 23), Err(CodecError::InvalidHex));
    let (mut c, first) = Converter::new("40490fdb".to_string());
    assert!(first.is_ok());
    assert!(c.bits.iter().any(|&b| b == 1));
    c.hex_input = "zz".to_string();
    assert_eq!(c.convert_hex_to_float(), Err(CodecError::InvalidHex));
    assert_eq!(c.bits, vec![0u8; 32]);
}

#[test]
fn too_wide_layout_is_refused() {
    assert_eq!(decode_hex("0", 40, 30), Err(CodecError::TooWide));
    assert_eq!(decode_hex("zz", 40, 30), Err(CodecError::TooWide));
    assert_eq!(Layout::new(40, 30), Err(CodecError::TooWide));
    assert_eq!(encode_f64_bits(1.0f64.to_bits(), 40, 30), Err(CodecError::TooWide));
    let (mut c, _) = Converter::new("3f800000".to_string());
    assert_eq!(c.update_custom_format(40, 30), Some(Err(CodecError::TooWide)));
    assert_eq!(c.current_format, FloatFormat::Custom);
    assert_eq!(Layout::new(11, 52).map(|l| l.total_bits()), Ok(64));
    assert_eq!(Layout::new(11, 53), Err(CodecError::TooWide));
}

#[test]
fn layout_error_clears_bits() {
    let (mut c, first) = Converter::new("40490fdb".to_string());
    assert!(first.is_ok());
    assert_eq!(c.bits[1], 1);
    assert_eq!(c.update_custom_format(40, 30), Some(Err(CodecError::TooWide)));
    assert_eq!(c.bits, vec![0u8; 71]);
    c.hex_input = "zz".to_string();
    assert_eq!(c.convert_hex_to_float(), Err(CodecError::TooWide));
    assert_eq!(c.bits, vec![0u8; 71]);
    assert_eq!(c.hex_input, "zz");
    assert_eq!(c.update_custom_format(0, 5), Some(Err(CodecError::NoExponent)));
    assert_eq!(c.bits, vec![0u8; 6]);
}

#[test]
fn no_exponent_bits_is_refused() {
    assert_eq!(Layout::new(0, 5), Err(CodecError::NoExponent));
    assert_eq!(decode_hex("1", 0, 5), Err(CodecError::NoExponent));
}

#[test]
fn round_trip_named_layouts() {
    let cases: Vec<(u8, u8, Vec<f64>)> = vec![
        (8, 23, vec![1.0, -1.5, 3.4028234663852886e38, 1.1754943508222875e-38, 1.401298464324817e-45]),
        (5, 10, vec![1.0, -2.0, 65504.0, 6.103515625e-5, 5.960464477539063e-8, 0.333251953125]),
        (8, 7, vec![1.0, -0.5, 3.3895313892515355e38, 9.183549615799121e-41]),
        (8, 10, vec![1.0, 1.0009765625, 2.0, 3.4011621342146535e38]),
        (4, 3, vec![1.0, 1.875, 240.0, 0.015625, 0.001953125]),
        (5, 2, vec![1.0, 1.75, 57344.0, 1.52587890625e-5]),
        (2, 1, vec![1.0, 1.5, 0.5, -1.5]),
        (8, 0, vec![1.0, 2.0, 0.5, 1.7014118346046923e38]),
    ];
    for (e, m, values) in cases {
        for v in values {
            assert_eq!(value_of(round_trip(e, m, v)), v, "{} under ({}, {})", v, e, m);
            assert_eq!(value_of(round_trip(e, m, -v)), -v);
        }
        assert_eq!(value_of(round_trip(e, m, f64::INFINITY)), f64::INFINITY);
        assert_eq!(value_of(round_trip(e, m, f64::NEG_INFINITY)), f64::NEG_INFINITY);
        assert!(value_of(round_trip(e, m, -0.0)).is_sign_negative());
        if m > 0 {
            assert_eq!(round_trip(e, m, f64::NAN), Decoded::NaN);
        }
    }
}

#[test]
fn every_pattern_round_trips() {
    for (e, m) in [(4u8, 3u8), (5, 2), (2, 1), (3, 4), (8, 0), (1, 2)] {
        let layout = Layout::new(e, m).unwrap();
        let total = layout.total_bits();
        for bits in 0..(1u64 << total) {
            let d = decode(&layout, bits);
            if d == Decoded::NaN {
                assert_eq!(decode(&layout, encode(&layout, d).unwrap()), Decoded::NaN);
            } else {
                assert_eq!(encode(&layout, d), Ok(bits));
            }
        }
    }
}

#[test]
fn nan_without_mantissa_bits() {
    assert_eq!(encode_f64_bits(f64::NAN.to_bits(), 8, 0), Err(CodecError::NanUnrepresentable));
    let layout = Layout::new(8, 0).unwrap();
    assert_eq!(encode(&layout, Decoded::NaN), Err(CodecError::NanUnrepresentable));
}

#[test]
fn nan_encoding_is_canonical() {
    assert_eq!(encode_f64_bits(f64::NAN.to_bits(), 8, 23), Ok(0x7fc00000));
    assert_eq!(encode_f64_bits(f64::NAN.to_bits(), 5, 10), Ok(0x7e00));
    assert_eq!(encode_f64_bits((-f64::NAN).to_bits(), 4, 3), Ok(0x7c));
}

#[test]
fn rounding_ties_away_and_carries() {
    // 1 + 2^-11 lies halfway between two fp16 neighbours.
    assert_eq!(encode_f64_bits((1.0 + 2f64.powi(-11)).to_bits(), 5, 10), Ok(0x3c01));
    assert_eq!(encode_f64_bits((1.0 + 2f64.powi(-12)).to_bits(), 5, 10), Ok(0x3c00));
    // A mantissa that rounds up to 2 carries into the exponent.
    assert_eq!(encode_f64_bits(2047.9f64.to_bits(), 5, 10), Ok(0x6800));
    // Rounding past the largest finite value gives infinity.
    assert_eq!(encode_f64_bits(65520.0f64.to_bits(), 5, 10), Ok(0x7c00));
    assert_eq!(encode_f64_bits(65519.0f64.to_bits(), 5, 10), Ok(0x7bff));
    assert_eq!(encode_f64_bits(1e10f64.to_bits(), 5, 10), Ok(0x7c00));
    assert_eq!(encode_f64_bits((-1e10f64).to_bits(), 5, 10), Ok(0xfc00));
    // Subnormals, and values below half the smallest one.
    assert_eq!(encode_f64_bits(2f64.powi(-24).to_bits(), 5, 10), Ok(0x0001));
    assert_eq!(encode_f64_bits(2f64.powi(-25).to_bits(), 5, 10), Ok(0x0001));
    assert_eq!(encode_f64_bits(2f64.powi(-26).to_bits(), 5, 10), Ok(0x0000));
    assert_eq!(encode_f64_bits(1e-300f64.to_bits(), 8, 23), Ok(0));
    assert_eq!(encode_f64_bits(3.141592f64.to_bits(), 8, 23), Ok(0x40490fd8));
}

#[test]
fn hex_window_and_sign() {
    assert_eq!(parse_hex_window("40490fdbffff", 8), Ok(0x40490fdb));
    assert_eq!(parse_hex_window("+1F", 8), Ok(0x1f));
    assert_eq!(parse_hex_window("", 8), Err(CodecError::InvalidHex));
    assert_eq!(parse_hex_window("+", 8), Err(CodecError::InvalidHex));
    assert_eq!(parse_hex_window("-1", 8), Err(CodecError::InvalidHex));
    assert_eq!(parse_hex_window("ffffffffffffffff", 16), Ok(u64::MAX));
    assert_eq!(parse_hex_window("1ffffffffffffffff", 17), Err(CodecError::InvalidHex));
    assert_eq!(parse_hex_window("12zz", 2), Ok(0x12));
    assert_eq!(decode_hex("40490fdb99", 8, 23), decode_hex("40490fdb", 8, 23));
}

#[test]
fn hex_text_is_zero_padded() {
    assert_eq!(to_hex(0x1f, 4), "001f");
    assert_eq!(to_hex(0xabc, 3), "abc");
    assert_eq!(to_hex(0, 0), "");
    let (mut c, _) = Converter::new("0".to_string());
    assert_eq!(
        c.convert_float_to_hex(1.0f64.to_bits()),
        Ok(Decoded::Number { negative: false, significand: 1 << 23, exponent: -23 })
    );
    assert_eq!(c.hex_input, "3f800000");
    assert_eq!(c.set_format(FloatFormat::Fp8e4m3), decode_hex("3f", 4, 3));
    assert_eq!(c.convert_float_to_hex(2f64.powi(-9).to_bits()), decode_hex("01", 4, 3));
    assert_eq!(c.hex_input, "01");
}

#[test]
fn failed_encode_keeps_state() {
    let (mut c, _) = Converter::new("3f800000".to_string());
    c.set_format(FloatFormat::Ue8m0).unwrap();
    let bits_before = c.bits.clone();
    assert_eq!(c.convert_float_to_hex(f64::NAN.to_bits()), Err(CodecError::NanUnrepresentable));
    assert_eq!(c.hex_input, "3f800000");
    assert_eq!(c.bits, bits_before);
}

#[test]
fn format_registry() {
    let all = FloatFormat::all();
    assert_eq!(all.len(), 8);
    assert!(!all.contains(&FloatFormat::Custom));
    let names: Vec<&str> = all.iter().map(|f| f.name()).collect();
    assert_eq!(names, vec!["fp32", "fp16", "bf16", "tf32", "fp8e4m3", "fp8e5m2", "fp4", "ue8m0"]);
    let params: Vec<(u8, u8)> = all.iter().map(|f| f.get_params()).collect();
    assert_eq!(params, vec![(8, 23), (5, 10), (8, 7), (8, 10), (4, 3), (5, 2), (2, 1), (8, 0)]);
    assert_eq!(FloatFormat::Custom.get_params(), (8, 23));
    assert_eq!(FloatFormat::Custom.name(), "Custom");
}

#[test]
fn switching_formats() {
    let (mut c, _) = Converter::new("3c00".to_string());
    assert_eq!(
        c.set_format(FloatFormat::Fp16),
        Ok(Decoded::Number { negative: false, significand: 1 << 10, exponent: -10 })
    );
    assert_eq!((c.exponent_bits, c.mantissa_bits), (5, 10));
    assert_eq!(c.bits.len(), 16);
    assert_eq!(c.update_custom_format(5, 10), None);
    assert_eq!(c.current_format, FloatFormat::Fp16);
    assert!(c.update_custom_format(6, 10).is_some());
    assert_eq!(c.current_format, FloatFormat::Custom);
    assert_eq!(c.bits.len(), 17);
    c.set_format(FloatFormat::Custom).unwrap();
    assert_eq!((c.exponent_bits, c.mantissa_bits), (6, 10));
    c.set_format(FloatFormat::Bf16).unwrap();
    assert_eq!((c.exponent_bits, c.mantissa_bits), (8, 7));
}

#[test]
fn bit_markers_sign_first() {
    let layout = Layout::new(2, 1).unwrap();
    assert_eq!(bit_markers(&layout, 0b1011), vec![1, 0, 1, 1]);
    assert_eq!(bit_markers(&layout, 0b10110), vec![0, 1, 1, 0]);
    let fp32 = Layout::new(8, 23).unwrap();
    assert_eq!(fp32.hex_len(), 8);
    assert_eq!(fp32.bias_value(), 127);
    assert_eq!(Layout::new(2, 1).unwrap().hex_len(), 1);
}

#[test]
fn focus_cycles() {
    assert_eq!(InputField::Hex.next(), InputField::Float);
    assert_eq!(InputField::Float.next(), InputField::Exponent);
    assert_eq!(InputField::Exponent.next(), InputField::Mantissa);
    assert_eq!(InputField::Mantissa.next(), InputField::Hex);
}

#[test]
fn encoded_value_within_half_step() {
    let values = [1.0 / 3.0, -2.718281828459045, 1234.5678, 1e-5, -6e-8, 0.1, 65000.0, 3e-6];
    for (e, m) in [(5u8, 10u8), (8, 7), (4, 3), (8, 23)] {
        let bias = (1i32 << (e - 1)) - 1;
        for v in values {
            let d = value_of(round_trip(e, m, v));
            if d.is_infinite() {
                continue;
            }
            let place = (v.abs().log2().floor() as i32).max(1 - bias);
            let half_step = 2f64.powi(place - m as i32 - 1);
            assert!((d - v).abs() <= half_step, "{} under ({}, {}) gave {}", v, e, m, d);
            assert_eq!(d.is_sign_negative(), v.is_sign_negative());
        }
    }
}
