use vstd::prelude::*;

verus! {

/// The named layouts; `Custom` carries whatever widths were last chosen.
#[derive(Clone, Copy, Debug, PartialEq, Eq, Structural)]
pub enum FloatFormat {
    Fp32,
    Fp16,
    Bf16,
    Tf32,
    Fp8e4m3,
    Fp8e5m2,
    Fp4,
    Ue8m0,
    Custom,
}

/// Which field of an editor has the focus.
#[derive(Clone, Copy, Debug, PartialEq, Eq, Structural)]
pub enum InputField {
    Hex,
    Float,
    Exponent,
    Mantissa,
}

impl FloatFormat {
    /// `(exponent_bits, mantissa_bits)` of each named layout; `Custom`
    /// starts out as fp32.
    pub open spec fn params(self) -> (u8, u8) {
        match self {
            FloatFormat::Fp32 => (8, 23),
            FloatFormat::Fp16 => (5, 10),
            FloatFormat::Bf16 => (8, 7),
            FloatFormat::Tf32 => (8, 10),
            FloatFormat::Fp8e4m3 => (4, 3),
            FloatFormat::Fp8e5m2 => (5, 2),
            FloatFormat::Fp4 => (2, 1),
            FloatFormat::Ue8m0 => (8, 0),
            FloatFormat::Custom => (8, 23),
        }
    }

    pub open spec fn display_name(self) -> Seq<char> {
        match self {
            FloatFormat::Fp32 => "fp32"@,
            FloatFormat::Fp16 => "fp16"@,
            FloatFormat::Bf16 => "bf16"@,
            FloatFormat::Tf32 => "tf32"@,
            FloatFormat::Fp8e4m3 => "fp8e4m3"@,
            FloatFormat::Fp8e5m2 => "fp8e5m2"@,
            FloatFormat::Fp4 => "fp4"@,
            FloatFormat::Ue8m0 => "ue8m0"@,
            FloatFormat::Custom => "Custom"@,
        }
    }

    /// The selectable named layouts, in display order (`Custom` is reached by
    /// editing the widths).
    pub open spec fn listed() -> Seq<FloatFormat> {
        seq![
            FloatFormat::Fp32,
            FloatFormat::Fp16,
            FloatFormat::Bf16,
            FloatFormat::Tf32,
            FloatFormat::Fp8e4m3,
            FloatFormat::Fp8e5m2,
            FloatFormat::Fp4,
            FloatFormat::Ue8m0,
        ]
    }

    pub fn get_params(&self) -> (r: (u8, u8))
        ensures
            r == self.params(),
    {
        match self {
            FloatFormat::Fp32 => (8, 23),
            FloatFormat::Fp16 => (5, 10),
            FloatFormat::Bf16 => (8, 7),
            FloatFormat::Tf32 => (8, 10),
            FloatFormat::Fp8e4m3 => (4, 3),
            FloatFormat::Fp8e5m2 => (5, 2),
            FloatFormat::Fp4 => (2, 1),
            FloatFormat::Ue8m0 => (8, 0),
            FloatFormat::Custom => (8, 23),
        }
    }

    pub fn name(&self) -> (r: &'static str)
        ensures
            r@ == self.display_name(),
    {
        match self {
            FloatFormat::Fp32 => "fp32",
            FloatFormat::Fp16 => "fp16",
            FloatFormat::Bf16 => "bf16",
            FloatFormat::Tf32 => "tf32",
            FloatFormat::Fp8e4m3 => "fp8e4m3",
            FloatFormat::Fp8e5m2 => "fp8e5m2",
            FloatFormat::Fp4 => "fp4",
            FloatFormat::Ue8m0 => "ue8m0",
            FloatFormat::Custom => "Custom",
        }
    }

    pub fn all() -> (r: Vec<FloatFormat>)
        ensures
            r@ == Self::listed(),
    {
        let r = vec![
            FloatFormat::Fp32,
            FloatFormat::Fp16,
            FloatFormat::Bf16,
            FloatFormat::Tf32,
            FloatFormat::Fp8e4m3,
            FloatFormat::Fp8e5m2,
            FloatFormat::Fp4,
            FloatFormat::Ue8m0,
        ];
        assert(r@ =~= Self::listed());
        r
    }
}

impl InputField {
    /// The field that the focus moves to next, in a cycle.
    pub fn next(self) -> (r: InputField)
        ensures
            self == InputField::Hex ==> r == InputField::Float,
            self == InputField::Float ==> r == InputField::Exponent,
            self == InputField::Exponent ==> r == InputField::Mantissa,
            self == InputField::Mantissa ==> r == InputField::Hex,
    {
        match self {
            InputField::Hex => InputField::Float,
            InputField::Float => InputField::Exponent,
            InputField::Exponent => InputField::Mantissa,
            InputField::Mantissa => InputField::Hex,
        }
    }
}

} // verus!
