//! Deterministic fixed-point arithmetic over `i128` values scaled by `10^18`.
use soroban_fixed_point_math::FixedPoint;
use vstd::arithmetic::div_mod::{lemma_div_is_ordered, lemma_fundamental_div_mod_converse};
use vstd::arithmetic::power2::{lemma2_to64, lemma2_to64_rest, lemma_pow2_adds, lemma_pow2_unfold, pow2};
use vstd::prelude::*;

verus! {

/// The scale of every decimal value: `1.0` is stored as `10^18`.
pub const DECIMALS: i128 = 1_000_000_000_000_000_000;

/// Why a fixed-point operation produced no value.
#[derive(Debug, Clone, Copy, PartialEq, Eq, Structural)]
pub enum FixedPointError {
    /// The divisor was zero.
    DivisionByZero,
    /// The exact result does not fit in an `i128`.
    Overflow,
}

/// Whether `n` is representable as an `i128`.
pub open spec fn fits_i128(n: int) -> bool {
    i128::MIN <= n <= i128::MAX
}

/// Mathematical floor of `n / d`.
pub open spec fn floor_div(n: int, d: int) -> int
    recommends
        d != 0,
{
    if d > 0 {
        n / d
    } else {
        (-n) / (-d)
    }
}

/// Exact value of `floor(x * y / z)`, or why there is none.
pub open spec fn mul_div_floor_spec(x: int, y: int, z: int) -> Result<i128, FixedPointError> {
    if z == 0 {
        Err(FixedPointError::DivisionByZero)
    } else if fits_i128(floor_div(x * y, z)) {
        Ok(floor_div(x * y, z) as i128)
    } else {
        Err(FixedPointError::Overflow)
    }
}

/// Relies on soroban_fixed_point_math's `FixedPoint::fixed_mul_floor` for `i128`:
/// it forms `x * y` with a checked multiplication and floor-divides it by `z`,
/// returning `None` when the product or the quotient leaves `i128` or `z` is zero.
#[verifier::external_body]
fn checked_fixed_mul_floor(x: i128, y: i128, z: i128) -> (r: Option<i128>)
    ensures
        r is Some <==> (z != 0 && fits_i128(x * y) && fits_i128(floor_div(x * y, z as int))),
        r matches Some(v) ==> v == floor_div(x * y, z as int),
{
    x.fixed_mul_floor(y, z)
}

/// Absolute value of `x` as an unsigned integer.
fn magnitude(x: i128) -> (r: u128)
    ensures
        r == (if x < 0 { -x } else { x as int }),
{
    if x < 0 {
        ((-(x + 1)) as u128) + 1
    } else {
        x as u128
    }
}

/// `2 * q + c1 + b + c2`, or `None` when it leaves `u128`.
fn checked_step(q: u128, c1: u128, b: u128, c2: u128) -> (r: Option<u128>)
    ensures
        r matches Some(v) ==> v == 2 * q + c1 + b + c2,
        r is None ==> 2 * q + c1 + b + c2 > u128::MAX,
{
    match q.checked_add(q) {
        None => None,
        Some(s1) => match s1.checked_add(c1) {
            None => None,
            Some(s2) => match s2.checked_add(b) {
                None => None,
                Some(s3) => s3.checked_add(c2),
            },
        },
    }
}

/// Adds two remainders modulo `d`, returning the carry and the new remainder.
fn add_mod(x: u128, y: u128, d: u128) -> (r: (u128, u128))
    requires
        x < d,
        y < d,
    ensures
        r.0 <= 1,
        r.1 < d,
        x + y == r.0 * d + r.1,
{
    if x >= d - y {
        (1, x - (d - y))
    } else {
        (0, x + y)
    }
}

proof fn lemma_pow2_127()
    ensures
        pow2(127) == 0x8000_0000_0000_0000_0000_0000_0000_0000,
{
    lemma2_to64_rest();
    lemma_pow2_adds(64, 63);
    let p64 = pow2(64);
    let p63 = pow2(63);
    assert(p64 * p63 == 0x8000_0000_0000_0000_0000_0000_0000_0000) by (nonlinear_arith)
        requires
            p64 == 0x1_0000_0000_0000_0000,
            p63 == 0x8000_0000_0000_0000,
    ;
}

/// Quotient and remainder of `a * b` by `d`, computed one bit of `b` at a time so
/// that no intermediate leaves `u128`; `None` when the quotient exceeds `2^127`.
fn mul_div_magnitudes(a: u128, b: u128, d: u128) -> (r: Option<(u128, u128)>)
    requires
        0 < d,
    ensures
        r matches Some(qr) ==> a * b == qr.0 * d + qr.1 && qr.1 < d && qr.0 <= pow2(127),
        r is None ==> (a * b) / (d as int) > pow2(127),
{
    proof {
        lemma_pow2_127();
    }
    let limit: u128 = 0x8000_0000_0000_0000_0000_0000_0000_0000;
    let qa: u128 = a / d;
    let ra: u128 = a % d;
    let mut q: u128 = 0;
    let mut rem: u128 = 0;
    let mut rest: u128 = b;
    let mut p: u128 = limit;
    let mut bits: u32 = 128;
    let ghost mut prefix: int = 0;
    proof {
        lemma_pow2_unfold(128);
        vstd::arithmetic::div_mod::lemma_fundamental_div_mod(a as int, d as int);
        assert(a == qa * d + ra) by (nonlinear_arith)
            requires
                a == d * qa + ra,
        ;
    }
    while bits > 0
        invariant
            0 < d,
            limit == pow2(127),
            a == qa * d + ra,
            ra < d,
            bits <= 128,
            bits > 0 ==> p == pow2((bits - 1) as nat),
            b == prefix * pow2(bits as nat) + rest,
            rest < pow2(bits as nat),
            0 <= prefix,
            a * prefix == q * d + rem,
            rem < d,
            q <= limit,
        decreases bits,
    {
        proof {
            lemma_pow2_unfold(bits as nat);
        }
        let bit: u128 = if rest >= p { 1 } else { 0 };
        rest = rest - bit * p;
        let ghost old_prefix = prefix;
        proof {
            prefix = 2 * prefix + bit;
        }
        let (c1, r1) = add_mod(rem, rem, d);
        let (c2, r2) = add_mod(r1, bit * ra, d);
        let ghost q_next: int = 2 * q + c1 + bit * qa + c2;
        proof {
            assert(a * prefix == 2 * (a * old_prefix) + bit * a) by (nonlinear_arith)
                requires
                    prefix == 2 * old_prefix + bit,
            ;
            assert(bit * a == bit * qa * d + bit * ra) by (nonlinear_arith)
                requires
                    a == qa * d + ra,
            ;
            assert(a * prefix == q_next * d + r2) by (nonlinear_arith)
                requires
                    a * prefix == 2 * (a * old_prefix) + bit * a,
                    bit * a == bit * qa * d + bit * ra,
                    a * old_prefix == q * d + rem,
                    rem + rem == c1 * d + r1,
                    r1 + bit * ra == c2 * d + r2,
                    q_next == 2 * q + c1 + bit * qa + c2,
            ;
            assert(b == prefix * pow2((bits - 1) as nat) + rest) by (nonlinear_arith)
                requires
                    b == old_prefix * pow2(bits as nat) + rest + bit * pow2((bits - 1) as nat),
                    pow2(bits as nat) == 2 * pow2((bits - 1) as nat),
                    prefix == 2 * old_prefix + bit,
            ;
        }
        let step = checked_step(q, c1, bit * qa, c2);
        if step.is_none() || step.unwrap() > limit {
            proof {
                assert(prefix * 1 <= prefix * pow2((bits - 1) as nat)) by (nonlinear_arith)
                    requires
                        pow2((bits - 1) as nat) >= 1,
                        prefix >= 0,
                ;
                assert(a * prefix <= a * b) by (nonlinear_arith)
                    requires
                        prefix <= b,
                        a >= 0,
                ;
                lemma_fundamental_div_mod_converse(a * prefix, d as int, q_next, r2 as int);
                lemma_div_is_ordered(a * prefix, a * b, d as int);
            }
            return None;
        }
        q = step.unwrap();
        rem = r2;
        bits = bits - 1;
        p = p / 2;
        proof {
            if bits > 0 {
                lemma_pow2_unfold(bits as nat);
            }
        }
    }
    proof {
        lemma2_to64();
        assert(prefix * pow2(0) == prefix);
        assert(rest == 0);
        assert(prefix == b);
    }
    Some((q, rem))
}

proof fn lemma_floor_of_negated(m: int, d: int, q: int, r: int)
    requires
        0 < d,
        0 <= r < d,
        m == q * d + r,
    ensures
        (-m) / d == -q - (if r > 0 { 1int } else { 0int }),
        m / d == q,
{
    lemma_fundamental_div_mod_converse(m, d, q, r);
    if r > 0 {
        assert(-m == (-q - 1) * d + (d - r)) by (nonlinear_arith)
            requires
                m == q * d + r,
        ;
        lemma_fundamental_div_mod_converse(-m, d, -q - 1, d - r);
    } else {
        assert(-m == (-q) * d + 0) by (nonlinear_arith)
            requires
                m == q * d + r,
                r == 0,
        ;
        lemma_fundamental_div_mod_converse(-m, d, -q, 0);
    }
}

/// Computes `floor(x * y / z)` exactly, whatever the signs of the operands.
///
/// Truncating division would round a negative quotient toward zero; here it is
/// always rounded down. The intermediate product is never truncated.
pub fn mul_div_floor(x: i128, y: i128, z: i128) -> (r: Result<i128, FixedPointError>)
    ensures
        r == mul_div_floor_spec(x as int, y as int, z as int),
{
    if z == 0 {
        return Err(FixedPointError::DivisionByZero);
    }
    if let Some(v) = checked_fixed_mul_floor(x, y, z) {
        return Ok(v);
    }
    let a = magnitude(x);
    let b = magnitude(y);
    let d = magnitude(z);
    let negative = (a != 0 && b != 0) && ((x < 0) != (y < 0)) != (z < 0);
    let ghost m: int = a * b;
    proof {
        lemma_pow2_127();
        assert(x * y == m || x * y == -m) by (nonlinear_arith)
            requires
                a == (if x < 0 { -x } else { x as int }),
                b == (if y < 0 { -y } else { y as int }),
                m == a * b,
        ;
        assert(x * y == (if ((x < 0) != (y < 0)) { -m } else { m })) by (nonlinear_arith)
            requires
                a == (if x < 0 { -x } else { x as int }),
                b == (if y < 0 { -y } else { y as int }),
                m == a * b,
        ;
        assert(m >= 0) by (nonlinear_arith)
            requires
                m == a * b,
                a >= 0,
                b >= 0,
        ;
        assert(m == 0 <==> (a == 0 || b == 0)) by (nonlinear_arith)
            requires
                m == a * b,
                a >= 0,
                b >= 0,
        ;
    }
    match mul_div_magnitudes(a, b, d) {
        None => {
            proof {
                let q0 = m / (d as int);
                let r0 = m % (d as int);
                vstd::arithmetic::div_mod::lemma_fundamental_div_mod(m, d as int);
                lemma_floor_of_negated(m, d as int, q0, r0);
            }
            Err(FixedPointError::Overflow)
        },
        Some((q, rem)) => {
            proof {
                lemma_floor_of_negated(m, d as int, q as int, rem as int);
            }
            if negative {
                let up: u128 = if rem > 0 { 1 } else { 0 };
                let limit: u128 = 0x8000_0000_0000_0000_0000_0000_0000_0000;
                if q >= limit && (q > limit || up == 1) {
                    Err(FixedPointError::Overflow)
                } else if q + up == limit {
                    Ok(i128::MIN)
                } else {
                    Ok(-((q + up) as i128))
                }
            } else if q > i128::MAX as u128 {
                Err(FixedPointError::Overflow)
            } else {
                Ok(q as i128)
            }
        },
    }
}

/// `floor_div(n, d)` is the integer `q` with `q * d <= n < (q + 1) * d` when
/// `d > 0`, and `(q + 1) * d < n <= q * d` when `d < 0`: rounding is always
/// downward, never toward zero.
pub proof fn lemma_floor_div_bounds(n: int, d: int)
    requires
        d != 0,
    ensures
        d > 0 ==> floor_div(n, d) * d <= n < (floor_div(n, d) + 1) * d,
        d < 0 ==> (floor_div(n, d) + 1) * d < n <= floor_div(n, d) * d,
{
    if d > 0 {
        vstd::arithmetic::div_mod::lemma_fundamental_div_mod(n, d);
        let q = n / d;
        assert(q * d <= n < (q + 1) * d) by (nonlinear_arith)
            requires
                n == d * q + n % d,
                0 <= n % d < d,
        ;
    } else {
        vstd::arithmetic::div_mod::lemma_fundamental_div_mod(-n, -d);
        let q = (-n) / (-d);
        assert((q + 1) * d < n <= q * d) by (nonlinear_arith)
            requires
                -n == (-d) * q + (-n) % (-d),
                0 <= (-n) % (-d) < -d,
        ;
    }
}

/// Whatever the signs, a value returned by `mul_div_floor` is the floor of
/// `x * y / z`.
pub proof fn lemma_mul_div_floor_rounds_down(x: int, y: int, z: int, r: i128)
    requires
        mul_div_floor_spec(x, y, z) == Ok::<i128, FixedPointError>(r),
    ensures
        z > 0 ==> r * z <= x * y < (r + 1) * z,
        z < 0 ==> (r + 1) * z < x * y <= r * z,
{
    lemma_floor_div_bounds(x * y, z);
}

} // verus!
