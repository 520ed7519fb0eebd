use vstd::arithmetic::div_mod::lemma_div_basics_1;
use vstd::arithmetic::div_mod::lemma_fundamental_div_mod;
use vstd::arithmetic::div_mod::lemma_mod_division_less_than_divisor;
use vstd::arithmetic::mul::lemma_mul_upper_bound;
use vstd::prelude::*;

verus! {

/// Why a range mapping failed: the input range is a single point, so the
/// linear map is undefined, or the mapped value cannot be represented in the
/// output type.
#[derive(Clone, Copy, Debug, PartialEq, Eq, Structural)]
pub enum MapRangeError {
    DegenerateRange,
    OutOfRange,
}

/// The magnitude of `x`.
pub open spec fn mag(x: int) -> int {
    if x >= 0 {
        x
    } else {
        -x
    }
}

/// Integer division of `a` by `b`, rounded toward zero.
pub open spec fn trunc_div(a: int, b: int) -> int {
    if (a >= 0) == (b >= 0) {
        mag(a) / mag(b)
    } else {
        -(mag(a) / mag(b))
    }
}

/// The value of `val` mapped linearly from [in_min, in_max] onto
/// [out_min, out_max], with the quotient rounded toward zero.
pub open spec fn map_range_exact(
    val: int,
    in_min: int,
    in_max: int,
    out_min: int,
    out_max: int,
) -> int {
    out_min + trunc_div((val - in_min) * (out_max - out_min), in_max - in_min)
}

/// What `map_range` returns: a defined error on a degenerate input range, an
/// overflow error when the mapped value cannot be represented, and otherwise
/// the exactly mapped value.
pub open spec fn map_range_spec(
    val: int,
    in_min: int,
    in_max: int,
    out_min: int,
    out_max: int,
) -> Result<i64, MapRangeError> {
    if in_min == in_max {
        Err(MapRangeError::DegenerateRange)
    } else {
        let exact = map_range_exact(val, in_min, in_max, out_min, out_max);
        if i64::MIN <= exact <= i64::MAX {
            Ok(exact as i64)
        } else {
            Err(MapRangeError::OutOfRange)
        }
    }
}

/// Magnitude distributes over products.
proof fn lemma_mag_mul(x: int, y: int)
    ensures
        mag(x * y) == mag(x) * mag(y),
{
    if x >= 0 && y >= 0 {
        assert(x * y >= 0) by (nonlinear_arith)
            requires
                x >= 0,
                y >= 0,
        ;
    } else if x < 0 && y < 0 {
        assert(x * y >= 0 && x * y == (-x) * (-y)) by (nonlinear_arith)
            requires
                x < 0,
                y < 0,
        ;
    } else if x < 0 {
        assert(x * y <= 0 && -(x * y) == (-x) * y) by (nonlinear_arith)
            requires
                x < 0,
                y >= 0,
        ;
    } else {
        assert(x * y <= 0 && -(x * y) == x * (-y)) by (nonlinear_arith)
            requires
                x >= 0,
                y < 0,
        ;
    }
}

/// The truncating quotient of a product, computed from the magnitudes of the
/// factors and of the divisor, with the sign recovered from the factors'
/// signs.
proof fn lemma_trunc_div_from_mags(dv: int, span: int, den: int, q: int)
    requires
        den != 0,
        q == mag(dv * span) / mag(den),
    ensures
        q >= 0,
        q == 0 ==> trunc_div(dv * span, den) == 0,
        q != 0 ==> trunc_div(dv * span, den) == (if ((dv < 0) != (span < 0)) != (den < 0) {
            -q
        } else {
            q
        }),
{
    let n = dv * span;
    lemma_mag_mul(dv, span);
    assert(mag(n) >= 0);
    assert(mag(den) > 0);
    assert(q >= 0) by {
        vstd::arithmetic::div_mod::lemma_div_pos_is_pos(mag(n), mag(den));
    }
    if n == 0 {
        assert(mag(n) == 0);
        lemma_div_basics_1(mag(den));
        assert(q == 0);
        assert(trunc_div(n, den) == 0 || trunc_div(n, den) == -(0int / mag(den)));
        assert(trunc_div(n, den) == 0);
    } else {
        // the sign of the product follows the signs of the factors
        if dv < 0 && span < 0 {
            assert(n > 0) by (nonlinear_arith)
                requires
                    n == dv * span,
                    dv < 0,
                    span < 0,
            ;
        } else if dv < 0 && span >= 0 {
            assert(n <= 0) by (nonlinear_arith)
                requires
                    n == dv * span,
                    dv < 0,
                    span >= 0,
            ;
        } else if dv >= 0 && span < 0 {
            assert(n <= 0) by (nonlinear_arith)
                requires
                    n == dv * span,
                    dv >= 0,
                    span < 0,
            ;
        } else {
            assert(n >= 0) by (nonlinear_arith)
                requires
                    n == dv * span,
                    dv >= 0,
                    span >= 0,
            ;
        }
        assert((n >= 0) == !((dv < 0) != (span < 0)));
        assert((den >= 0) == !(den < 0));
    }
}

/// A truncating quotient leaves a remainder strictly smaller in magnitude
/// than the divisor.
proof fn lemma_trunc_div_remainder(a: int, b: int)
    requires
        b != 0,
    ensures
        mag(a - b * trunc_div(a, b)) <= mag(b) - 1,
{
    let ma = mag(a);
    let mb = mag(b);
    let q = ma / mb;
    let rem = ma % mb;
    lemma_fundamental_div_mod(ma, mb);
    lemma_mod_division_less_than_divisor(ma, mb);
    let t = trunc_div(a, b);
    if a >= 0 && b > 0 {
        assert(b * t == mb * q);
    } else if a >= 0 && b < 0 {
        assert(t == -q);
        assert(b * t == mb * q) by (nonlinear_arith)
            requires
                t == -q,
                b == -mb,
        ;
    } else if a < 0 && b > 0 {
        assert(t == -q);
        assert(b * t == -(mb * q)) by (nonlinear_arith)
            requires
                t == -q,
                b == mb,
        ;
    } else {
        assert(t == q);
        assert(b * t == -(mb * q)) by (nonlinear_arith)
            requires
                t == q,
                b == -mb,
        ;
    }
}

/// Round trip of the exact linear map: mapping a value from [a, b] onto
/// [c, d] and the result back onto [a, b] lands within
/// mag(b - a) / mag(d - c) + 1 of the original value — the slack the two
/// truncating divisions can introduce. Both ranges must be non-degenerate;
/// a degenerate range is reported as an error by `map_range` instead.
pub proof fn lemma_map_range_round_trip(v: int, a: int, b: int, c: int, d: int)
    requires
        a != b,
        c != d,
    ensures
        mag(map_range_exact(map_range_exact(v, a, b, c, d), c, d, a, b) - v) <= mag(b - a) / mag(
            d - c,
        ) + 1,
{
    let d1 = b - a;
    let d2 = d - c;
    let n1 = (v - a) * d2;
    let t = trunc_div(n1, d1);
    let y = c + t;
    let n2 = (y - c) * d1;
    let u = trunc_div(n2, d2);
    let z = a + u;
    assert(map_range_exact(v, a, b, c, d) == y);
    assert(map_range_exact(y, c, d, a, b) == z);
    let r1 = n1 - d1 * t;
    let r2 = n2 - d2 * u;
    lemma_trunc_div_remainder(n1, d1);
    lemma_trunc_div_remainder(n2, d2);
    assert(n2 == t * d1);
    assert((z - v) * d2 == -r1 - r2) by (nonlinear_arith)
        requires
            z == a + u,
            n2 == t * d1,
            r1 == n1 - d1 * t,
            r2 == n2 - d2 * u,
            n1 == (v - a) * d2,
    ;
    lemma_mag_mul(z - v, d2);
    assert(mag(-r1 - r2) <= mag(r1) + mag(r2));
    assert(mag(z - v) * mag(d2) <= mag(d1) + mag(d2) - 2);
    let q = mag(d1) / mag(d2);
    lemma_fundamental_div_mod(mag(d1), mag(d2));
    lemma_mod_division_less_than_divisor(mag(d1), mag(d2));
    assert(mag(d1) <= mag(d2) * q + mag(d2) - 1);
    assert(mag(z - v) * mag(d2) < mag(d2) * (q + 2)) by (nonlinear_arith)
        requires
            mag(z - v) * mag(d2) <= mag(d1) + mag(d2) - 2,
            mag(d1) <= mag(d2) * q + mag(d2) - 1,
    ;
    assert(mag(z - v) < q + 2) by (nonlinear_arith)
        requires
            mag(z - v) * mag(d2) < mag(d2) * (q + 2),
            mag(d2) > 0,
            mag(z - v) >= 0,
    ;
}

/// Maps `val` linearly from the range [in_min, in_max] onto the range
/// [out_min, out_max]: the exact value is
/// out_min + (val - in_min) * (out_max - out_min) / (in_max - in_min),
/// with the quotient rounded toward zero. A degenerate input range
/// (in_min == in_max) and a mapped value outside the representable range are
/// each reported as a defined error instead of producing a meaningless value.
pub fn map_range(val: i64, in_min: i64, in_max: i64, out_min: i64, out_max: i64) -> (r: Result<
    i64,
    MapRangeError,
>)
    ensures
        r == map_range_spec(val as int, in_min as int, in_max as int, out_min as int, out_max as int),
{
    if in_min == in_max {
        return Err(MapRangeError::DegenerateRange);
    }
    let dv: i128 = val as i128 - in_min as i128;
    let span: i128 = out_max as i128 - out_min as i128;
    let den: i128 = in_max as i128 - in_min as i128;
    let mag_v: u128 = if dv < 0 {
        (-dv) as u128
    } else {
        dv as u128
    };
    let mag_s: u128 = if span < 0 {
        (-span) as u128
    } else {
        span as u128
    };
    let mag_d: u128 = if den < 0 {
        (-den) as u128
    } else {
        den as u128
    };
    proof {
        assert(mag_v as int == mag(dv as int));
        assert(mag_s as int == mag(span as int));
        assert(mag_d as int == mag(den as int));
        lemma_mul_upper_bound(mag_v as int, u64::MAX as int, mag_s as int, u64::MAX as int);
        lemma_mag_mul(dv as int, span as int);
    }
    let mag_n: u128 = mag_v * mag_s;
    let q: u128 = mag_n / mag_d;
    let negn = (dv < 0) != (span < 0);
    let neg_res = negn != (den < 0);
    let ghost exact = map_range_exact(
        val as int,
        in_min as int,
        in_max as int,
        out_min as int,
        out_max as int,
    );
    proof {
        lemma_trunc_div_from_mags(dv as int, span as int, den as int, q as int);
    }
    if q == 0 {
        proof {
            assert(exact == out_min as int);
        }
        return Ok(out_min);
    }
    if neg_res {
        proof {
            assert(exact == out_min - q);
        }
        let cap: u128 = (out_min as i128 - i64::MIN as i128) as u128;
        if q > cap {
            return Err(MapRangeError::OutOfRange);
        }
        let res: i128 = out_min as i128 - q as i128;
        proof {
            assert(i64::MIN <= res <= i64::MAX);
        }
        Ok(res as i64)
    } else {
        proof {
            assert(exact == out_min + q);
        }
        let cap: u128 = (i64::MAX as i128 - out_min as i128) as u128;
        if q > cap {
            return Err(MapRangeError::OutOfRange);
        }
        let res: i128 = out_min as i128 + q as i128;
        proof {
            assert(i64::MIN <= res <= i64::MAX);
        }
        Ok(res as i64)
    }
}

} // verus!
