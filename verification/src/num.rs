//! Numbers are IEEE-754 double-precision values, carried everywhere as their
//! 64-bit patterns. The arithmetic itself is done by `rustc_apfloat`, a
//! software implementation of IEEE-754 that works directly on bit patterns;
//! each operation's result is named by an uninterpreted spec function, and
//! every contract in the crate speaks of those names.
use rustc_apfloat::ieee::Double;
use rustc_apfloat::Float;
use rustc_apfloat::Round;
use rustc_apfloat::Status;
use vstd::prelude::*;

verus! {

/// Bit pattern of 1.0.
pub const ONE_BITS: u64 = 0x3FF0_0000_0000_0000;

/// The IEEE-754 double sum of the doubles with bit patterns `a` and `b`,
/// as a bit pattern (round to nearest, ties to even).
pub uninterp spec fn sum_bits(a: u64, b: u64) -> u64;

/// The IEEE-754 double difference `a - b`, on bit patterns.
pub uninterp spec fn diff_bits(a: u64, b: u64) -> u64;

/// The IEEE-754 double product, on bit patterns.
pub uninterp spec fn prod_bits(a: u64, b: u64) -> u64;

/// The IEEE-754 double quotient `a / b`, on bit patterns.
pub uninterp spec fn quot_bits(a: u64, b: u64) -> u64;

/// The double nearest the decimal numeral `s`, as a bit pattern.
pub uninterp spec fn dec_to_bits(s: Seq<char>) -> u64;

/// `Some(n)` when the double with bit pattern `a` is exactly the integer `n`;
/// `None` when it is not an integer or does not fit in `i64`.
pub uninterp spec fn int_from_bits(a: u64) -> Option<i64>;

/// IEEE-754 negation flips the sign bit of the pattern.
pub open spec fn spec_neg_bits(a: u64) -> u64 {
    a ^ 0x8000_0000_0000_0000
}

/// Relies on rustc_apfloat: `Double` addition is the IEEE-754 double sum,
/// rounded to nearest, ties to even.
#[verifier::external_body]
pub(crate) fn add_bits(a: u64, b: u64) -> (r: u64)
    ensures
        r == sum_bits(a, b),
{
    (Double::from_bits(a as u128) + Double::from_bits(b as u128)).value.to_bits() as u64
}

/// Relies on rustc_apfloat: `Double` subtraction is the IEEE-754 double
/// difference, rounded to nearest, ties to even.
#[verifier::external_body]
pub(crate) fn sub_bits(a: u64, b: u64) -> (r: u64)
    ensures
        r == diff_bits(a, b),
{
    (Double::from_bits(a as u128) - Double::from_bits(b as u128)).value.to_bits() as u64
}

/// Relies on rustc_apfloat: `Double` multiplication is the IEEE-754 double
/// product, rounded to nearest, ties to even.
#[verifier::external_body]
pub(crate) fn mul_bits(a: u64, b: u64) -> (r: u64)
    ensures
        r == prod_bits(a, b),
{
    (Double::from_bits(a as u128) * Double::from_bits(b as u128)).value.to_bits() as u64
}

/// Relies on rustc_apfloat: `Double` division is the IEEE-754 double
/// quotient, rounded to nearest, ties to even.
#[verifier::external_body]
pub(crate) fn div_bits(a: u64, b: u64) -> (r: u64)
    ensures
        r == quot_bits(a, b),
{
    (Double::from_bits(a as u128) / Double::from_bits(b as u128)).value.to_bits() as u64
}

/// Negation of a double: the pattern with its sign bit flipped.
pub fn neg_bits(a: u64) -> (r: u64)
    ensures
        r == spec_neg_bits(a),
{
    a ^ 0x8000_0000_0000_0000
}

/// Relies on rustc_apfloat: `Double::to_i128_r` with the exactness flag tells
/// whether the double is exactly an integer, and which one.
#[verifier::external_body]
pub(crate) fn bits_to_exact_int(a: u64) -> (r: Option<i64>)
    ensures
        r == int_from_bits(a),
{
    let mut exact = false;
    let v = Double::from_bits(a as u128).to_i128_r(64, Round::TowardZero, &mut exact);
    if exact && v.status == Status::OK {
        Some(v.value as i64)
    } else {
        None
    }
}

/// The double raised to the natural power `n` by binary exponentiation over
/// IEEE-754 products: the base case is 1.0, and each step squares the base.
pub open spec fn pow_nat_bits(b: u64, n: nat) -> u64
    decreases n,
{
    if n == 0 {
        ONE_BITS
    } else {
        let h = pow_nat_bits(prod_bits(b, b), n / 2);
        if n % 2 == 1 {
            prod_bits(h, b)
        } else {
            h
        }
    }
}

/// The power operation of the expression language: defined whenever the
/// exponent is exactly an integer, by binary exponentiation (with the
/// reciprocal for a negative exponent), and undefined otherwise.
pub open spec fn pow_result(exp: u64, base: u64) -> Option<u64> {
    match int_from_bits(exp) {
        Some(n) => if n >= 0 {
            Some(pow_nat_bits(base, n as nat))
        } else {
            Some(quot_bits(ONE_BITS, pow_nat_bits(base, (-(n as int)) as nat)))
        },
        None => None,
    }
}

fn pow_nat_exec(b: u64, n: u64) -> (r: u64)
    ensures
        r == pow_nat_bits(b, n as nat),
    decreases n,
{
    if n == 0 {
        ONE_BITS
    } else {
        let s = mul_bits(b, b);
        let h = pow_nat_exec(s, n / 2);
        if n % 2 == 1 {
            mul_bits(h, b)
        } else {
            h
        }
    }
}

/// Raises `base` to the power `exp` (both doubles as bit patterns), when the
/// exponent is exactly an integer; yields `None` otherwise.
pub fn pow_bits(exp: u64, base: u64) -> (r: Option<u64>)
    ensures
        r == pow_result(exp, base),
{
    match bits_to_exact_int(exp) {
        Some(n) => {
            if n >= 0 {
                Some(pow_nat_exec(base, n as u64))
            } else {
                let m: u64 = if n == i64::MIN {
                    9223372036854775808u64
                } else {
                    (-n) as u64
                };
                assert(m == -(n as int));
                Some(div_bits(ONE_BITS, pow_nat_exec(base, m)))
            }
        },
        None => None,
    }
}


/// The decimal digit character for `d` (which must be below ten).
pub open spec fn digit_char(d: u64) -> char {
    if d == 0 {
        '0'
    } else if d == 1 {
        '1'
    } else if d == 2 {
        '2'
    } else if d == 3 {
        '3'
    } else if d == 4 {
        '4'
    } else if d == 5 {
        '5'
    } else if d == 6 {
        '6'
    } else if d == 7 {
        '7'
    } else if d == 8 {
        '8'
    } else {
        '9'
    }
}

/// The decimal numeral of `v`, most significant digit first.
pub open spec fn u64_dec(v: u64) -> Seq<char>
    decreases v,
{
    if v < 10 {
        seq![digit_char(v)]
    } else {
        u64_dec(v / 10).push(digit_char(v % 10))
    }
}

fn digit_str(d: u64) -> (r: &'static str)
    requires
        d < 10,
    ensures
        r@ == seq![digit_char(d)],
{
    proof {
        reveal_strlit("0");
        reveal_strlit("1");
        reveal_strlit("2");
        reveal_strlit("3");
        reveal_strlit("4");
        reveal_strlit("5");
        reveal_strlit("6");
        reveal_strlit("7");
        reveal_strlit("8");
        reveal_strlit("9");
    }
    let r = if d == 0 {
        "0"
    } else if d == 1 {
        "1"
    } else if d == 2 {
        "2"
    } else if d == 3 {
        "3"
    } else if d == 4 {
        "4"
    } else if d == 5 {
        "5"
    } else if d == 6 {
        "6"
    } else if d == 7 {
        "7"
    } else if d == 8 {
        "8"
    } else {
        "9"
    };
    r
}

/// Writes `v` in decimal, most significant digit first.
pub fn u64_to_string(v: u64) -> (r: String)
    ensures
        r@ == u64_dec(v),
    decreases v,
{
    if v < 10 {
        let mut s = String::new();
        s.append(digit_str(v));
        proof {
            assert(s@ =~= u64_dec(v));
        }
        s
    } else {
        let mut s = u64_to_string(v / 10);
        s.append(digit_str(v % 10));
        proof {
            assert(s@ =~= u64_dec(v));
        }
        s
    }
}

} // verus!
