use vstd::arithmetic::div_mod::*;
use vstd::arithmetic::power2::*;
use vstd::prelude::*;
use vstd::string::*;

use crate::layout::{pow2_u64, CodecError};

verus! {

/// Value of a hexadecimal digit, either case; `-1` for any other character.
pub open spec fn hex_digit_value(c: char) -> int {
    let u = c as u32;
    if 48 <= u <= 57 {
        u - 48
    } else if 97 <= u <= 102 {
        u - 87
    } else if 65 <= u <= 70 {
        u - 55
    } else {
        -1
    }
}

pub open spec fn all_hex_digits(s: Seq<char>) -> bool {
    forall|i: int| 0 <= i < s.len() ==> hex_digit_value(#[trigger] s[i]) >= 0
}

/// The number that a string of hexadecimal digits spells, most significant
/// digit first.
pub open spec fn hex_value(s: Seq<char>) -> nat
    decreases s.len(),
{
    if s.len() == 0 {
        0
    } else {
        hex_value(s.drop_last()) * 16 + hex_digit_value(s.last()) as nat
    }
}

/// The first `n` characters of `s`, or all of them if there are fewer.
pub open spec fn window(s: Seq<char>, n: nat) -> Seq<char> {
    if s.len() > n {
        s.take(n as int)
    } else {
        s
    }
}

/// The digits of a number: what follows an optional leading `+`.
pub open spec fn unsigned_digits(s: Seq<char>) -> Seq<char> {
    if s.len() > 0 && s[0] == '+' {
        s.drop_first()
    } else {
        s
    }
}

/// `s` is an optional `+` followed by at least one hexadecimal digit, and
/// the number fits in 64 bits.
pub open spec fn is_hex_u64(s: Seq<char>) -> bool {
    let d = unsigned_digits(s);
    &&& d.len() > 0
    &&& all_hex_digits(d)
    &&& hex_value(d) <= u64::MAX
}

fn digit_value(c: char) -> (r: Option<u64>)
    ensures
        hex_digit_value(c) >= 0 ==> r == Some(hex_digit_value(c) as u64),
        hex_digit_value(c) < 0 ==> r is None,
{
    let u = c as u32;
    if 48 <= u && u <= 57 {
        Some((u - 48) as u64)
    } else if 97 <= u && u <= 102 {
        Some((u - 87) as u64)
    } else if 65 <= u && u <= 70 {
        Some((u - 55) as u64)
    } else {
        None
    }
}

/// Reads the first `max_digits` characters of `s` (all of them if there
/// are fewer) as an unsigned hexadecimal number.
pub fn parse_hex_window(s: &str, max_digits: usize) -> (r: Result<u64, CodecError>)
    ensures
        is_hex_u64(window(s@, max_digits as nat)) ==> r == Ok::<u64, CodecError>(
            hex_value(unsigned_digits(window(s@, max_digits as nat))) as u64,
        ),
        !is_hex_u64(window(s@, max_digits as nat)) ==> r == Err::<u64, CodecError>(
            CodecError::InvalidHex,
        ),
{
    let len = s.unicode_len();
    let end = if len > max_digits { max_digits } else { len };
    let ghost w = window(s@, max_digits as nat);
    assert(w =~= s@.take(end as int));
    let start: usize = if end > 0 && s.get_char(0) == '+' { 1 } else { 0 };
    let ghost d = unsigned_digits(w);
    assert(d =~= w.subrange(start as int, end as int));
    if start == end {
        return Err(CodecError::InvalidHex);
    }
    let mut acc: u64 = 0;
    let mut overflow = false;
    let mut i: usize = start;
    while i < end
        invariant
            start <= i <= end <= s@.len(),
            d == s@.subrange(start as int, end as int),
            d == unsigned_digits(window(s@, max_digits as nat)),
            all_hex_digits(s@.subrange(start as int, i as int)),
            !overflow ==> acc == hex_value(s@.subrange(start as int, i as int)),
            overflow ==> hex_value(s@.subrange(start as int, i as int)) > u64::MAX,
        decreases end - i,
    {
        let c = s.get_char(i);
        let ghost prev = s@.subrange(start as int, i as int);
        let ghost next = s@.subrange(start as int, i + 1);
        assert(next.drop_last() =~= prev);
        assert(next.last() == c);
        match digit_value(c) {
            None => {
                assert(d[i - start] == s@[i as int]);
                assert(hex_digit_value(d[i - start]) < 0);
                assert(!all_hex_digits(d));
                return Err(CodecError::InvalidHex);
            },
            Some(v) => {
                if !overflow {
                    if acc > (u64::MAX - v) / 16 {
                        overflow = true;
                    } else {
                        acc = acc * 16 + v;
                    }
                }
            },
        }
        assert forall|j: int| 0 <= j < next.len() implies hex_digit_value(#[trigger] next[j]) >= 0 by {
            if j < prev.len() {
                assert(next[j] == prev[j]);
            }
        }
        i = i + 1;
    }
    assert(s@.subrange(start as int, end as int) =~= d);
    if overflow {
        Err(CodecError::InvalidHex)
    } else {
        Ok(acc)
    }
}

/// Lower-case hexadecimal digit for `d < 16`.
pub open spec fn hex_char(d: nat) -> char {
    if d < 10 {
        (48 + d) as char
    } else {
        (87 + d) as char
    }
}

/// The low `width` hexadecimal digits of `v`, most significant first.
pub open spec fn hex_string(v: nat, width: nat) -> Seq<char> {
    Seq::new(width, |i: int| hex_char((v / pow2((4 * (width - 1 - i)) as nat)) % 16))
}

/// Relies on `String::push`: appends one character.
#[verifier::external_body]
fn push_char(s: &mut String, c: char)
    ensures
        final(s)@ == old(s)@.push(c),
{
    s.push(c)
}

/// `v` as exactly `width` lower-case hexadecimal digits, zero-padded.
pub fn to_hex(v: u64, width: usize) -> (r: String)
    requires
        width <= 16,
    ensures
        r@ == hex_string(v as nat, width as nat),
{
    let mut r = String::new();
    let mut i: usize = 0;
    while i < width
        invariant
            width <= 16,
            i <= width,
            r@ == hex_string(v as nat, width as nat).take(i as int),
        decreases width - i,
    {
        let unit = pow2_u64((4 * (width - 1 - i)) as u32);
        let d = (v / unit) % 16;
        let c: char = if d < 10 { (48 + d as u8) as char } else { (87 + d as u8) as char };
        push_char(&mut r, c);
        assert(r@ =~= hex_string(v as nat, width as nat).take(i + 1));
        i = i + 1;
    }
    assert(r@ =~= hex_string(v as nat, width as nat));
    r
}

proof fn lemma_hex_char_value(d: nat)
    requires
        d < 16,
    ensures
        hex_digit_value(hex_char(d)) == d,
{
}

proof fn lemma_pow16_step(v: nat, k: nat)
    ensures
        (v / 16) / pow2(4 * k) == v / pow2(4 * (k + 1)),
{
    lemma2_to64();
    lemma_pow2_pos(4 * k);
    lemma_pow2_adds(4, 4 * k);
    lemma_div_denominator(v as int, 16, pow2(4 * k) as int);
}

/// Reading back the low `w` hexadecimal digits of `v` gives `v` modulo
/// `16^w`.
pub proof fn lemma_hex_string_value(v: nat, w: nat)
    ensures
        hex_value(hex_string(v, w)) == v % pow2(4 * w),
        all_hex_digits(hex_string(v, w)),
    decreases w,
{
    let hs = hex_string(v, w);
    lemma2_to64();
    assert forall|i: int| 0 <= i < hs.len() implies hex_digit_value(#[trigger] hs[i]) >= 0 by {
        let d = (v / pow2((4 * (w - 1 - i)) as nat)) % 16;
        lemma_hex_char_value(d);
    }
    if w == 0 {
        assert(hs.len() == 0);
        assert(v % 1 == 0);
    } else {
        lemma_hex_string_value(v / 16, (w - 1) as nat);
        let rest = hex_string(v / 16, (w - 1) as nat);
        assert forall|i: int| 0 <= i < w - 1 implies #[trigger] hs.drop_last()[i] == rest[i] by {
            lemma_pow16_step(v, (w - 2 - i) as nat);
        }
        assert(hs.drop_last() =~= rest);
        lemma_hex_char_value(v % 16);
        lemma_pow2_pos(4 * (w - 1) as nat);
        lemma_pow2_adds(4, 4 * (w - 1) as nat);
        lemma_mod_breakdown(v as int, 16, pow2(4 * (w - 1) as nat) as int);
        assert(hs.last() == hex_char(v % 16));
        assert(4 * w == 4 + 4 * (w - 1) as nat);
        assert(hex_value(hs) == hex_value(rest) * 16 + v % 16);
    }
}

} // verus!

