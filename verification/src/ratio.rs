//! Exact non-negative fractions, used for every utilization figure.

use vstd::prelude::*;

verus! {

/// A non-negative fraction `num / den`; well formed when `den > 0`.
#[derive(Clone, Copy, Debug, PartialEq, Eq, Structural)]
pub struct Ratio {
    pub num: u128,
    pub den: u128,
}

impl View for Ratio {
    type V = (int, int);

    open spec fn view(&self) -> (int, int) {
        (self.num as int, self.den as int)
    }
}

/// `a / b <= c / d`, for positive denominators.
pub open spec fn frac_le(a: (int, int), c: (int, int)) -> bool {
    a.0 * c.1 <= c.0 * a.1
}

impl Ratio {
    pub open spec fn wf(self) -> bool {
        self.den > 0
    }

    /// The fraction `0 / 1`.
    pub fn zero() -> (r: Ratio)
        ensures
            r@ == (0int, 1int),
    {
        Ratio { num: 0, den: 1 }
    }

    /// The fraction `num / den`, or `None` when `den` is zero.
    pub fn new(num: u128, den: u128) -> (r: Option<Ratio>)
        ensures
            den == 0 <==> r is None,
            r matches Some(x) ==> x@ == (num as int, den as int),
    {
        if den == 0 {
            None
        } else {
            Some(Ratio { num, den })
        }
    }
}

/// How `num / den` relates to `p / q`: `-1` below, `0` equal, `1` above.
///
/// Works for every `u128` numerator and denominator without overflow, for
/// any threshold `p / q` of at most one whose denominator fits in a `u64`
/// (so that the products of two values below `q` fit in a `u128`).
pub fn relation_to_fraction(num: u128, den: u128, p: u128, q: u128) -> (r: i8)
    requires
        den > 0,
        0 < q <= u64::MAX,
        p <= q,
    ensures
        r == -1 <==> num * q < p * den,
        r == 0 <==> num * q == p * den,
        r == 1 <==> num * q > p * den,
{
    let d1 = den / q;
    let r1 = den % q;
    assert(den == q * d1 + r1 && r1 < q) by (nonlinear_arith)
        requires
            d1 == den / q,
            r1 == den % q,
            q > 0,
    ;
    assert(p * d1 <= den) by (nonlinear_arith)
        requires
            den == q * d1 + r1,
            p <= q,
            d1 >= 0,
            r1 >= 0,
    ;
    let a = p * d1;
    // num * q - p * den == q * (num - p * d1) - p * r1
    assert(num * q - p * den == q * (num - a) - p * r1) by (nonlinear_arith)
        requires
            den == q * d1 + r1,
            a == p * d1,
    ;
    if num < a {
        assert(q * (num - a) <= -q) by (nonlinear_arith)
            requires
                num < a,
                q > 0,
        ;
        assert(p * r1 >= 0) by (nonlinear_arith)
            requires
                p >= 0,
                r1 >= 0,
        ;
        return -1;
    }
    let t = num - a;
    if t > p {
        assert(q * t >= q * (p + 1)) by (nonlinear_arith)
            requires
                t >= p + 1,
                q > 0,
        ;
        assert(p * r1 < q * (p + 1)) by (nonlinear_arith)
            requires
                r1 < q,
                p >= 0,
                q > 0,
        ;
        return 1;
    }
    assert(q * t <= 0xffff_ffff_ffff_ffff * 0xffff_ffff_ffff_ffff
        && p * r1 <= 0xffff_ffff_ffff_ffff * 0xffff_ffff_ffff_ffff) by (nonlinear_arith)
        requires
            t <= p,
            p <= q,
            q <= 0xffff_ffff_ffff_ffff,
            r1 < q,
            t >= 0,
            r1 >= 0,
    ;
    let lhs = q * t;
    let rhs = p * r1;
    if lhs < rhs {
        -1
    } else if lhs == rhs {
        0
    } else {
        1
    }
}

} // verus!
