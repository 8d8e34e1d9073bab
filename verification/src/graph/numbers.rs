//! The numeric model: exact comparison of signed 64-bit integers and finite binary64 numbers,
//! and the mapping value types.
use vstd::prelude::*;
use vstd::arithmetic::power2::{pow2, lemma_pow2_adds, lemma_pow2_pos, lemma_pow2_strictly_increases, lemma2_to64,
    lemma2_to64_rest};
use std::cmp::Ordering;

use super::model::{JsonNumber, ValueType};
use crate::json_value::{Binary64, JsonData, JsonValue};

verus! {

/// 2^52, the weight of the implicit leading bit of a normal binary64.
pub open spec fn frac_unit() -> nat {
    0x10_0000_0000_0000
}

/// The sign bit.
pub open spec fn sign_of(bits: u64) -> nat {
    bits as nat / 0x8000_0000_0000_0000
}

/// The biased exponent field.
pub open spec fn exponent_of(bits: u64) -> nat {
    (bits as nat % 0x8000_0000_0000_0000) / frac_unit()
}

/// The fraction field.
pub open spec fn fraction_of(bits: u64) -> nat {
    bits as nat % frac_unit()
}

/// Finite: the exponent field is not all ones.
pub open spec fn is_finite(bits: u64) -> bool {
    exponent_of(bits) != 2047
}

/// 2^1074: every finite binary64 is an integer multiple of 2^-1074.
pub open spec fn unit() -> nat {
    pow2(1074)
}

/// |value| × 2^1074, an exact natural number for finite bit patterns.
pub open spec fn magnitude(bits: u64) -> nat {
    if exponent_of(bits) == 0 {
        fraction_of(bits)
    } else {
        (fraction_of(bits) + frac_unit()) * pow2((exponent_of(bits) - 1) as nat)
    }
}

/// value × 2^1074.
pub open spec fn scaled_float(bits: u64) -> int {
    if sign_of(bits) == 1 {
        -(magnitude(bits) as int)
    } else {
        magnitude(bits) as int
    }
}

/// The exact value of a JSON number, times 2^1074.
pub open spec fn scaled(n: JsonNumber) -> int {
    match n {
        JsonNumber::Integer(i) => i * unit(),
        JsonNumber::Float(f) => scaled_float(f.bits),
    }
}

/// The number a JSON value holds, if it is a number (booleans are not).
pub open spec fn data_number(d: JsonData) -> Option<JsonNumber> {
    match d {
        JsonData::Integer(i) => Some(JsonNumber::Integer(i)),
        JsonData::Number(b) => Some(JsonNumber::Float(Binary64 { bits: b })),
        _ => None,
    }
}

/// A number denotes a mathematical integer.
pub open spec fn is_integral(n: JsonNumber) -> bool {
    scaled(n) % (unit() as int) == 0
}

/// The ordering of two integers.
pub open spec fn order(a: int, b: int) -> Ordering {
    if a < b {
        Ordering::Less
    } else if a == b {
        Ordering::Equal
    } else {
        Ordering::Greater
    }
}

/// The exact numeric ordering of two JSON numbers.
pub open spec fn number_order(left: JsonNumber, right: JsonNumber) -> Ordering {
    order(scaled(left), scaled(right))
}

proof fn lemma_mul_le(a: int, b: int, c: int)
    by (nonlinear_arith)
    requires
        a <= b,
        c >= 0,
    ensures
        a * c <= b * c,
{
}

proof fn lemma_mul_lt(a: int, b: int, c: int)
    by (nonlinear_arith)
    requires
        a < b,
        c > 0,
    ensures
        a * c < b * c,
{
}

proof fn lemma_fields(bits: u64)
    ensures
        sign_of(bits) <= 1,
        exponent_of(bits) <= 2047,
        fraction_of(bits) < frac_unit(),
        bits as nat % 0x8000_0000_0000_0000 == exponent_of(bits) * frac_unit() + fraction_of(bits),
        bits as nat == sign_of(bits) * 0x8000_0000_0000_0000 + exponent_of(bits) * frac_unit()
            + fraction_of(bits),
{
    let low = bits as nat % 0x8000_0000_0000_0000;
    assert(low == (low / frac_unit()) * frac_unit() + low % frac_unit());
    assert(low % frac_unit() == bits as nat % frac_unit()) by {
        assert(bits as nat == (bits as nat / 0x8000_0000_0000_0000) * 0x8000_0000_0000_0000 + low);
        assert(0x8000_0000_0000_0000 == 0x800 * frac_unit());
        vstd::arithmetic::div_mod::lemma_mod_mod(bits as int, frac_unit() as int, 0x800);
    }
}

/// pow2 at the few exponents the decoding needs.
proof fn lemma_pow2_facts()
    ensures
        pow2(52) == frac_unit(),
        pow2(53) == 2 * frac_unit(),
        pow2(63) == 0x8000_0000_0000_0000,
{
    lemma2_to64();
    lemma2_to64_rest();
}

/// The magnitude is strictly monotone in the exponent/fraction pair.
proof fn lemma_magnitude_monotone(a: u64, b: u64)
    requires
        exponent_of(a) < exponent_of(b) || (exponent_of(a) == exponent_of(b) && fraction_of(a) < fraction_of(b)),
        exponent_of(b) <= 2047,
    ensures
        magnitude(a) < magnitude(b),
{
    lemma_fields(a);
    lemma_fields(b);
    lemma_pow2_facts();
    let ea = exponent_of(a);
    let eb = exponent_of(b);
    let fa = fraction_of(a);
    let fb = fraction_of(b);
    if ea == eb {
        if ea > 0 {
            lemma_pow2_pos((ea - 1) as nat);
            lemma_mul_lt((fa + frac_unit()) as int, (fb + frac_unit()) as int, pow2((ea - 1) as nat) as int);
        }
    } else {
        // magnitude(b) >= 2^52 * 2^(eb-1)
        lemma_pow2_pos((eb - 1) as nat);
        lemma_mul_le(frac_unit() as int, (fb + frac_unit()) as int, pow2((eb - 1) as nat) as int);
        if ea == 0 {
            lemma_mul_le(1, pow2((eb - 1) as nat) as int, frac_unit() as int);
        } else {
            // magnitude(a) < 2^53 * 2^(ea-1) = 2^52 * 2^ea <= 2^52 * 2^(eb-1)
            lemma_pow2_pos((ea - 1) as nat);
            lemma_mul_lt((fa + frac_unit()) as int, 2 * frac_unit() as int, pow2((ea - 1) as nat) as int);
            lemma_pow2_adds(1, (ea - 1) as nat);
            assert(pow2(1) == 2) by {
                lemma2_to64();
            }
            assert(2 * frac_unit() * pow2((ea - 1) as nat) == frac_unit() * pow2(ea)) by (nonlinear_arith)
                requires
                    pow2(1) * pow2((ea - 1) as nat) == pow2(ea),
                    pow2(1) == 2,
            ;
            if ea < eb - 1 {
                lemma_pow2_strictly_increases(ea, (eb - 1) as nat);
            }
            lemma_mul_le(pow2(ea) as int, pow2((eb - 1) as nat) as int, frac_unit() as int);
        }
    }
}

proof fn lemma_magnitude_zero(a: u64)
    ensures
        magnitude(a) == 0 <==> (exponent_of(a) == 0 && fraction_of(a) == 0),
{
    if exponent_of(a) > 0 {
        lemma_pow2_pos((exponent_of(a) - 1) as nat);
        lemma_mul_lt(0, (fraction_of(a) + frac_unit()) as int, pow2((exponent_of(a) - 1) as nat) as int);
    }
}

/// Compares two finite binary64 numbers exactly: -1, 0 or 1.
pub fn compare_floats(a: Binary64, b: Binary64) -> (result: i8)
    requires
        is_finite(a.bits),
        is_finite(b.bits),
    ensures
        result == -1 <==> scaled_float(a.bits) < scaled_float(b.bits),
        result == 0 <==> scaled_float(a.bits) == scaled_float(b.bits),
        result == 1 <==> scaled_float(a.bits) > scaled_float(b.bits),
{
    proof {
        lemma_fields(a.bits);
        lemma_fields(b.bits);
        lemma_magnitude_zero(a.bits);
        lemma_magnitude_zero(b.bits);
    }
    let sa = a.bits / 0x8000_0000_0000_0000;
    let sb = b.bits / 0x8000_0000_0000_0000;
    let ma = a.bits % 0x8000_0000_0000_0000;
    let mb = b.bits % 0x8000_0000_0000_0000;
    if ma == 0 && mb == 0 {
        return 0;
    }
    proof {
        if ma < mb {
            lemma_magnitude_monotone(a.bits, b.bits);
        } else if mb < ma {
            lemma_magnitude_monotone(b.bits, a.bits);
        }
    }
    if sa == 0 && sb == 0 {
        if ma < mb {
            -1
        } else if ma == mb {
            0
        } else {
            1
        }
    } else if sa == 1 && sb == 1 {
        if mb < ma {
            -1
        } else if ma == mb {
            0
        } else {
            1
        }
    } else if sa == 0 {
        1
    } else {
        -1
    }
}

/// For a finite number below 2^63 in magnitude: the integer part of the magnitude and
/// whether a fractional part remains.
fn split_magnitude(bits: u64) -> (result: (u64, bool))
    requires
        is_finite(bits),
        exponent_of(bits) < 1086,
    ensures
        result.0 < 0x8000_0000_0000_0000,
        result.0 * unit() <= magnitude(bits) < (result.0 + 1) * unit(),
        result.1 == (magnitude(bits) != result.0 * unit()),
{
    proof {
        lemma_fields(bits);
        lemma_pow2_facts();
        lemma_pow2_pos(1074);
    }
    let e = (bits % 0x8000_0000_0000_0000) / 0x10_0000_0000_0000;
    let f = bits % 0x10_0000_0000_0000;
    assert(e == exponent_of(bits) && f == fraction_of(bits));
    if e == 0 {
        proof {
            lemma_pow2_strictly_increases(52, 1074);
            assert((0 + 1) * unit() == unit() && 0 * unit() == 0) by (nonlinear_arith);
        }
        return (0, f != 0);
    }
    let m: u64 = f + 0x10_0000_0000_0000;
    proof {
        lemma_pow2_pos((e - 1) as nat);
    }
    if e < 1023 {
        proof {
            // magnitude < 2^53 * 2^(e-1) = 2^(52+e) <= 2^1074
            assert(magnitude(bits) == m * pow2((e - 1) as nat));
            lemma_mul_lt(m as int, pow2(53) as int, pow2((e - 1) as nat) as int);
            lemma_pow2_adds(53, (e - 1) as nat);
            assert(53 + (e - 1) as nat == (52 + e) as nat);
            if 52 + e < 1074 {
                lemma_pow2_strictly_increases((52 + e) as nat, 1074);
            }
            assert(magnitude(bits) < unit());
            lemma_mul_lt(0, m as int, pow2((e - 1) as nat) as int);
            assert((0 + 1) * unit() == unit() && 0 * unit() == 0) by (nonlinear_arith);
        }
        return (0, true);
    }
    if e < 1075 {
        let k: u64 = 1075 - e;
        proof {
            vstd::bits::lemma_u64_pow2_no_overflow(k as nat);
            vstd::bits::lemma_u64_shl_is_mul(1, k);
        }
        let p: u64 = 1u64 << k;
        assert(p == pow2(k as nat));
        let ip = m / p;
        let r = m % p;
        proof {
            vstd::arithmetic::div_mod::lemma_fundamental_div_mod(m as int, p as int);
            lemma_pow2_adds(k as nat, (e - 1) as nat);
            let q = pow2((e - 1) as nat) as int;
            assert(m as int == p * ip + r);
            assert(magnitude(bits) == m * q);
            assert(m * q == ip * (p * q) + r * q) by (nonlinear_arith)
                requires
                    m as int == p * ip + r,
            ;
            assert(p * q == unit());
            lemma_mul_lt(r as int, p as int, q);
            lemma_mul_le(0, r as int, q);
            assert((ip + 1) * unit() == ip * unit() + unit()) by (nonlinear_arith);
            if r != 0 {
                lemma_mul_lt(0, r as int, q);
            }
            assert(ip <= m) by {
                vstd::arithmetic::div_mod::lemma_div_is_ordered_by_denominator(m as int, 1, p as int);
            }
        }
        return (ip, r != 0);
    }
    let s: u64 = e - 1075;
    proof {
        vstd::bits::lemma_u64_pow2_no_overflow(s as nat);
        if s < 10 {
            lemma_pow2_strictly_increases(s as nat, 10);
        }
        assert(pow2(10) == 1024) by {
            lemma2_to64();
        }
        lemma_mul_le(s as int * 0, 0, 1);
        assert(m < 2 * frac_unit());
        lemma_mul_lt(m as int, 2 * frac_unit() as int, pow2(s as nat) as int);
        lemma_mul_le(pow2(s as nat) as int, 1024, 2 * frac_unit() as int);
        vstd::bits::lemma_u64_shl_is_mul(m, s);
    }
    let ip: u64 = m << s;
    proof {
        lemma_pow2_adds(s as nat, 1074);
        assert((e - 1) as nat == s + 1074);
        assert(m * pow2((e - 1) as nat) == (m * pow2(s as nat)) * pow2(1074)) by (nonlinear_arith)
            requires
                pow2(s as nat) * pow2(1074) == pow2((e - 1) as nat),
        ;
        assert((ip + 1) * unit() == ip * unit() + unit()) by (nonlinear_arith);
    }
    (ip, false)
}

/// Compares an integer with a finite binary64 number exactly: -1, 0 or 1.
fn compare_integer_float(integer: i64, float: Binary64) -> (result: i8)
    requires
        is_finite(float.bits),
    ensures
        result == -1 <==> integer * unit() < scaled_float(float.bits),
        result == 0 <==> integer * unit() == scaled_float(float.bits),
        result == 1 <==> integer * unit() > scaled_float(float.bits),
{
    proof {
        lemma_fields(float.bits);
        lemma_pow2_facts();
        lemma_pow2_pos(1074);
    }
    let negative = float.bits / 0x8000_0000_0000_0000 == 1;
    let e = (float.bits % 0x8000_0000_0000_0000) / 0x10_0000_0000_0000;
    let f = float.bits % 0x10_0000_0000_0000;
    let ghost c = unit() as int;
    let ghost mag = magnitude(float.bits) as int;
    if e >= 1086 {
        proof {
            // magnitude >= 2^52 * 2^1085 = 2^63 * 2^1074
            lemma_pow2_pos((e - 1) as nat);
            lemma_mul_le(frac_unit() as int, (f + frac_unit()) as int, pow2((e - 1) as nat) as int);
            if e - 1 > 1085 {
                lemma_pow2_strictly_increases(1085, (e - 1) as nat);
            }
            lemma_mul_le(pow2(1085) as int, pow2((e - 1) as nat) as int, frac_unit() as int);
            lemma_pow2_adds(11, 1074);
            lemma_pow2_adds(52, 11);
            assert(pow2(11) == 2048) by {
                lemma2_to64();
            }
            assert(frac_unit() * pow2(1085) == 0x8000_0000_0000_0000 * c) by (nonlinear_arith)
                requires
                    pow2(11) * pow2(1074) == pow2(1085),
                    pow2(11) == 2048,
                    c == pow2(1074),
                    frac_unit() == 0x10_0000_0000_0000,
            ;
            assert(mag >= 0x8000_0000_0000_0000 * c);
            lemma_mul_lt(integer as int, 0x8000_0000_0000_0000, c);
            lemma_mul_le(-0x8000_0000_0000_0000, integer as int, c);
        }
        if !negative {
            return -1;
        }
        if e == 1086 && f == 0 {
            proof {
                assert(mag == frac_unit() * pow2(1085));
            }
            if integer == i64::MIN {
                return 0;
            }
            proof {
                lemma_mul_lt(-0x8000_0000_0000_0000, integer as int, c);
            }
            return 1;
        }
        proof {
            if e == 1086 {
                lemma_mul_lt(frac_unit() as int, (f + frac_unit()) as int, pow2(1085) as int);
            } else {
                lemma_pow2_strictly_increases(1085, (e - 1) as nat);
                lemma_mul_lt(pow2(1085) as int, pow2((e - 1) as nat) as int, frac_unit() as int);
                lemma_mul_le(frac_unit() as int, (f + frac_unit()) as int, pow2((e - 1) as nat) as int);
            }
        }
        return 1;
    }
    let (ip, fractional) = split_magnitude(float.bits);
    let t: i64 = if negative { -(ip as i64) } else { ip as i64 };
    proof {
        lemma_mul_lt(ip as int, (ip + 1) as int, c);
    }
    if integer < t {
        proof {
            lemma_mul_le(integer as int, t - 1, c);
            assert((t - 1) * c == t * c - c) by (nonlinear_arith);
            assert(t * c == if negative { -(ip * c) } else { ip * c }) by (nonlinear_arith)
                requires
                    t == if negative { -(ip as int) } else { ip as int },
            ;
            assert((ip + 1) * c == ip * c + c) by (nonlinear_arith);
        }
        -1
    } else if integer > t {
        proof {
            lemma_mul_le(t + 1, integer as int, c);
            assert((t + 1) * c == t * c + c) by (nonlinear_arith);
            assert(t * c == if negative { -(ip * c) } else { ip * c }) by (nonlinear_arith)
                requires
                    t == if negative { -(ip as int) } else { ip as int },
            ;
            assert((ip + 1) * c == ip * c + c) by (nonlinear_arith);
        }
        1
    } else {
        proof {
            assert(integer * c == if negative { -(ip * c) } else { ip * c }) by (nonlinear_arith)
                requires
                    integer == if negative { -(ip as int) } else { ip as int },
            ;
        }
        if !fractional {
            0
        } else if negative {
            1
        } else {
            -1
        }
    }
}

/// Compares two integers: -1, 0 or 1, as their scaled values compare.
fn compare_integers(a: i64, b: i64) -> (result: i8)
    ensures
        result == -1 <==> a * unit() < b * unit(),
        result == 0 <==> a * unit() == b * unit(),
        result == 1 <==> a * unit() > b * unit(),
{
    proof {
        lemma_pow2_pos(1074);
        if a < b {
            lemma_mul_lt(a as int, b as int, unit() as int);
        } else if b < a {
            lemma_mul_lt(b as int, a as int, unit() as int);
        }
    }
    if a < b {
        -1
    } else if a == b {
        0
    } else {
        1
    }
}

/// Whether a number is strictly positive.
pub fn is_positive_number(n: JsonNumber) -> (result: bool)
    requires
        n.wf(),
    ensures
        result == (scaled(n) > 0),
{
    match n {
        JsonNumber::Integer(i) => {
            proof {
                lemma_pow2_pos(1074);
                if i > 0 {
                    lemma_mul_lt(0, i as int, unit() as int);
                } else {
                    lemma_mul_le(i as int, 0, unit() as int);
                }
            }
            i > 0
        },
        JsonNumber::Float(b) => {
            proof {
                lemma_fields(b.bits);
                lemma_magnitude_zero(b.bits);
            }
            b.bits / 0x8000_0000_0000_0000 == 0 && b.bits % 0x8000_0000_0000_0000 != 0
        },
    }
}

/// Numeric ordering of JSON numbers: exact across integer and binary64 representations.
pub fn compare_numbers(left: JsonNumber, right: JsonNumber) -> (result: Ordering)
    requires
        left.wf(),
        right.wf(),
    ensures
        result == number_order(left, right),
{
    let code: i8 = match (left, right) {
        (JsonNumber::Integer(a), JsonNumber::Integer(b)) => compare_integers(a, b),
        (JsonNumber::Float(a), JsonNumber::Float(b)) => compare_floats(a, b),
        (JsonNumber::Integer(a), JsonNumber::Float(b)) => compare_integer_float(a, b),
        (JsonNumber::Float(a), JsonNumber::Integer(b)) => -compare_integer_float(b, a),
    };
    if code < 0 {
        Ordering::Less
    } else if code == 0 {
        Ordering::Equal
    } else {
        Ordering::Greater
    }
}

/// The number a JSON value holds, if it is a number.
pub fn json_number(value: &JsonValue) -> (result: Option<JsonNumber>)
    ensures
        result == data_number(value@),
{
    match value {
        JsonValue::Integer(i) => Some(JsonNumber::Integer(*i)),
        JsonValue::Number(b) => Some(JsonNumber::Float(*b)),
        _ => None,
    }
}

/// Whether a finite binary64 denotes a mathematical integer.
fn float_is_integral(bits: u64) -> (result: bool)
    requires
        is_finite(bits),
    ensures
        result == (scaled_float(bits) % (unit() as int) == 0),
{
    proof {
        lemma_fields(bits);
        lemma_pow2_pos(1074);
    }
    let e = (bits % 0x8000_0000_0000_0000) / 0x10_0000_0000_0000;
    let ghost c = unit() as int;
    let ghost mag = magnitude(bits) as int;
    if e >= 1086 {
        // mag = m * 2^(e-1) = (m * 2^(e-1075)) * 2^1074
        proof {
            let s = (e - 1075) as nat;
            lemma_pow2_adds(s, 1074);
            let m = (fraction_of(bits) + frac_unit()) as int;
            assert(mag == (m * pow2(s)) * c) by (nonlinear_arith)
                requires
                    mag == m * pow2((e - 1) as nat),
                    pow2(s) * pow2(1074) == pow2((e - 1) as nat),
                    c == pow2(1074),
            ;
            lemma_integral_multiple(m * pow2(s), c, sign_of(bits) == 1);
        }
        return true;
    }
    let (ip, fractional) = split_magnitude(bits);
    proof {
        lemma_fraction_test(ip as int, mag, c, sign_of(bits) == 1);
    }
    !fractional
}

proof fn lemma_integral_multiple(k: int, c: int, negative: bool)
    requires
        c > 0,
    ensures
        (if negative { -(k * c) } else { k * c }) % c == 0,
{
    vstd::arithmetic::div_mod::lemma_mod_multiples_basic(k, c);
    vstd::arithmetic::div_mod::lemma_mod_multiples_basic(-k, c);
    assert(-(k * c) == (-k) * c) by (nonlinear_arith);
}

proof fn lemma_fraction_test(ip: int, mag: int, c: int, negative: bool)
    requires
        c > 0,
        ip >= 0,
        ip * c <= mag < (ip + 1) * c,
    ensures
        ((if negative { -mag } else { mag }) % c == 0) == (mag == ip * c),
{
    let r = mag - ip * c;
    assert((ip + 1) * c == ip * c + c) by (nonlinear_arith);
    assert(0 <= r < c);
    vstd::arithmetic::div_mod::lemma_fundamental_div_mod_converse(mag, c, ip, r);
    if negative {
        if r == 0 {
            lemma_integral_multiple(ip, c, true);
        } else {
            assert(-mag == (-ip - 1) * c + (c - r)) by (nonlinear_arith)
                requires
                    r == mag - ip * c,
            ;
            vstd::arithmetic::div_mod::lemma_fundamental_div_mod_converse(-mag, c, -ip - 1, c - r);
        }
    }
}

impl ValueType {
    /// Parses a mapping type name.
    pub fn parse(value: &str) -> (result: Option<ValueType>)
        ensures
            result == value_type_named(value@),
    {
        if crate::text::text_eq(value, "object") {
            Some(ValueType::Object)
        } else if crate::text::text_eq(value, "array") {
            Some(ValueType::Array)
        } else if crate::text::text_eq(value, "string") {
            Some(ValueType::String)
        } else if crate::text::text_eq(value, "number") {
            Some(ValueType::Number)
        } else if crate::text::text_eq(value, "integer") {
            Some(ValueType::Integer)
        } else if crate::text::text_eq(value, "boolean") {
            Some(ValueType::Boolean)
        } else if crate::text::text_eq(value, "null") {
            Some(ValueType::Null)
        } else {
            None
        }
    }

    /// The type's name as configurations spell it.
    pub fn name(self) -> (result: &'static str)
        ensures
            result@ == value_type_name(self),
    {
        match self {
            ValueType::Object => "object",
            ValueType::Array => "array",
            ValueType::String => "string",
            ValueType::Number => "number",
            ValueType::Integer => "integer",
            ValueType::Boolean => "boolean",
            ValueType::Null => "null",
        }
    }

    /// Whether a value has this type; `integer` admits integral binary64 numbers, and
    /// booleans are never numbers.
    pub fn matches(self, value: &JsonValue) -> (result: bool)
        requires
            value.wf(),
        ensures
            result == type_matches(self, value@),
    {
        match self {
            ValueType::Object => value.object().is_some(),
            ValueType::Array => value.array().is_some(),
            ValueType::String => value.string().is_some(),
            ValueType::Number => json_number(value).is_some(),
            ValueType::Integer => match value {
                JsonValue::Integer(_) => true,
                JsonValue::Number(b) => float_is_integral(b.bits),
                _ => false,
            },
            ValueType::Boolean => match value {
                JsonValue::Bool(_) => true,
                _ => false,
            },
            ValueType::Null => match value {
                JsonValue::Null => true,
                _ => false,
            },
        }
    }
}

/// The type a configuration name denotes.
pub open spec fn value_type_named(name: Seq<char>) -> Option<ValueType> {
    if name == "object"@ {
        Some(ValueType::Object)
    } else if name == "array"@ {
        Some(ValueType::Array)
    } else if name == "string"@ {
        Some(ValueType::String)
    } else if name == "number"@ {
        Some(ValueType::Number)
    } else if name == "integer"@ {
        Some(ValueType::Integer)
    } else if name == "boolean"@ {
        Some(ValueType::Boolean)
    } else if name == "null"@ {
        Some(ValueType::Null)
    } else {
        None
    }
}

/// The configuration name of a type.
pub open spec fn value_type_name(t: ValueType) -> Seq<char> {
    match t {
        ValueType::Object => "object"@,
        ValueType::Array => "array"@,
        ValueType::String => "string"@,
        ValueType::Number => "number"@,
        ValueType::Integer => "integer"@,
        ValueType::Boolean => "boolean"@,
        ValueType::Null => "null"@,
    }
}

/// Whether a value has a type.
pub open spec fn type_matches(t: ValueType, d: JsonData) -> bool {
    match t {
        ValueType::Object => d is Object,
        ValueType::Array => d is Array,
        ValueType::String => d is Text,
        ValueType::Number => d is Integer || d is Number,
        ValueType::Integer => d is Integer || (d is Number && is_integral(data_number(d)->Some_0)),
        ValueType::Boolean => d is Bool,
        ValueType::Null => d is Null,
    }
}

/// The `number` type admits exactly the values that are numbers: every integer and every
/// binary64 value, and nothing else (booleans, texts, null, objects and arrays are not numbers).
/// Every value of type `integer` is therefore also of type `number`.
pub proof fn lemma_number_type(d: JsonData)
    ensures
        type_matches(ValueType::Number, d) <==> data_number(d) is Some,
        forall|i: i64| #[trigger] type_matches(ValueType::Number, JsonData::Integer(i)),
        type_matches(ValueType::Integer, d) ==> type_matches(ValueType::Number, d),
        !type_matches(ValueType::Number, JsonData::Bool(true)),
        !type_matches(ValueType::Number, JsonData::Bool(false)),
        !type_matches(ValueType::Number, JsonData::Null),
{
}

} // verus!
