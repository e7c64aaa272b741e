//! Classifying a quadratic equation from its exact coefficients.
//!
//! The discriminant `b^2 - 4ac` is computed exactly as a decimal, so
//! whether real roots exist is decided without any rounding. The roots
//! themselves are irrational in general; a caller turns the exact
//! parts handed back here into floating-point values if it wants them.

use vstd::prelude::*;

use crate::extract::lemma_pow10_pos;
use crate::terms::pow10;
use crate::terms::Decimal;

verus! {

/// What solving `a*x^2 + b*x + c = 0` finds.
#[derive(Clone, Copy, Debug, PartialEq, Eq, Structural)]
pub enum Solution {
    /// `a` is zero: not a quadratic equation; the caller falls back to
    /// the linear case.
    Degenerate,
    /// The discriminant is negative: no real roots.
    NoRealRoots,
    /// Real roots exist: they are `(neg_b +- sqrt(disc)) / two_a`.
    RealRoots { neg_b: Decimal, disc: Decimal, two_a: Decimal },
}

/// An exact value left the range the solver can hold.
#[derive(Clone, Copy, Debug, PartialEq, Eq, Structural)]
pub enum SolveError {
    TooLarge,
}

/// The scale at which the discriminant is held: large enough for both
/// `b^2` and `4ac`.
pub open spec fn disc_scale(a: Decimal, b: Decimal, c: Decimal) -> nat {
    let s1 = 2 * (b.scale as nat);
    let s2 = a.scale as nat + c.scale as nat;
    if s1 >= s2 {
        s1
    } else {
        s2
    }
}

/// The exact mantissa of `b^2 - 4ac` at scale `disc_scale`. Its sign
/// is the sign of the discriminant.
pub open spec fn disc_num(a: Decimal, b: Decimal, c: Decimal) -> int {
    let m = disc_scale(a, b, c);
    let s1 = 2 * (b.scale as nat);
    let s2 = a.scale as nat + c.scale as nat;
    ((b.num as int * b.num as int) * pow10((m - s1) as nat)) - ((4 * (a.num as int * c.num as int))
        * pow10((m - s2) as nat))
}

/// Whether every step of the discriminant computation stays inside the
/// representable range.
pub open spec fn solve_fits(a: Decimal, b: Decimal, c: Decimal) -> bool {
    let m = disc_scale(a, b, c);
    let s1 = 2 * (b.scale as nat);
    let s2 = a.scale as nat + c.scale as nat;
    let bb = b.num as int * b.num as int;
    let fac = 4 * (a.num as int * c.num as int);
    let n1 = bb * pow10((m - s1) as nat);
    let n2 = fac * pow10((m - s2) as nat);
    &&& i128::MIN as int <= -(b.num as int) <= i128::MAX as int
    &&& i128::MIN as int <= 2 * a.num as int <= i128::MAX as int
    &&& i128::MIN as int <= bb <= i128::MAX as int
    &&& s1 <= u32::MAX as nat
    &&& i128::MIN as int <= a.num as int * c.num as int <= i128::MAX as int
    &&& i128::MIN as int <= fac <= i128::MAX as int
    &&& s2 <= u32::MAX as nat
    &&& i128::MIN as int <= n1 <= i128::MAX as int
    &&& i128::MIN as int <= n2 <= i128::MAX as int
    &&& i128::MIN as int <= n1 - n2 <= i128::MAX as int
}

/// The sign of `disc_num` is the sign of the discriminant: it is
/// negative exactly when `b^2 < 4ac` as exact rationals, written with
/// both sides multiplied by the positive denominators.
pub proof fn lemma_disc_sign(a: Decimal, b: Decimal, c: Decimal)
    ensures
        (disc_num(a, b, c) < 0) <==> ((b.num as int * b.num as int) * pow10(
            a.scale as nat + c.scale as nat,
        ) < (4 * (a.num as int * c.num as int)) * pow10(2 * (b.scale as nat))),
{
    let s1 = 2 * (b.scale as nat);
    let s2 = a.scale as nat + c.scale as nat;
    let m = disc_scale(a, b, c);
    let bb = b.num as int * b.num as int;
    let fac = 4 * (a.num as int * c.num as int);
    let x = bb * pow10((m - s1) as nat);
    let y = fac * pow10((m - s2) as nat);
    assert(disc_num(a, b, c) == x - y);
    let dmin = (s1 + s2 - m) as nat;
    let pmin = pow10(dmin);
    lemma_pow10_pos(dmin);
    crate::extract::lemma_pow10_adds((m - s1) as nat, dmin);
    crate::extract::lemma_pow10_adds((m - s2) as nat, dmin);
    assert(pow10(s2) == pow10((m - s1) as nat) * pmin);
    assert(pow10(s1) == pow10((m - s2) as nat) * pmin);
    assert(bb * pow10(s2) == x * pmin) by (nonlinear_arith)
        requires
            pow10(s2) == pow10((m - s1) as nat) * pmin,
            x == bb * pow10((m - s1) as nat),
    ;
    assert(fac * pow10(s1) == y * pmin) by (nonlinear_arith)
        requires
            pow10(s1) == pow10((m - s2) as nat) * pmin,
            y == fac * pow10((m - s2) as nat),
    ;
    assert((x < y) <==> (x * pmin < y * pmin)) by (nonlinear_arith)
        requires
            pmin >= 1,
    ;
}

/// Multiply `x` by `10^d`, or report that the result leaves the range.
fn scale_up_i128(x: i128, d: u32) -> (r: Option<i128>)
    ensures
        match r {
            Some(v) => v as int == x as int * pow10(d as nat),
            None => x as int * pow10(d as nat) > i128::MAX as int || x as int * pow10(d as nat)
                < i128::MIN as int,
        },
{
    crate::extract::scale_up(x, d)
}

/// Solve `a*x^2 + b*x + c = 0` over the reals, exactly: degenerate
/// when `a` is zero, no real roots when the discriminant is negative,
/// else the exact pieces of the closed-form root pair.
pub fn solve(a: &Decimal, b: &Decimal, c: &Decimal) -> (r: Result<Solution, SolveError>)
    ensures
        r is Ok <==> (a.num == 0 || solve_fits(*a, *b, *c)),
        r == Ok::<Solution, SolveError>(Solution::Degenerate) <==> a.num == 0,
        match r {
            Ok(Solution::Degenerate) => a.num == 0,
            Ok(Solution::NoRealRoots) => a.num != 0 && disc_num(*a, *b, *c) < 0,
            Ok(Solution::RealRoots { neg_b, disc, two_a }) => {
                &&& a.num != 0
                &&& disc_num(*a, *b, *c) >= 0
                &&& neg_b.num as int == -(b.num as int)
                &&& neg_b.scale == b.scale
                &&& disc.num as int == disc_num(*a, *b, *c)
                &&& disc.scale as nat == disc_scale(*a, *b, *c)
                &&& two_a.num as int == 2 * a.num as int
                &&& two_a.scale == a.scale
            },
            Err(SolveError::TooLarge) => a.num != 0 && !solve_fits(*a, *b, *c),
        },
{
    if a.num == 0 {
        return Ok(Solution::Degenerate);
    }
    let zero_a: i128 = 0;
    let neg_b_num = match zero_a.checked_sub(b.num) {
        Some(v) => v,
        None => {
            return Err(SolveError::TooLarge);
        },
    };
    let two_a_num = match a.num.checked_mul(2) {
        Some(v) => v,
        None => {
            return Err(SolveError::TooLarge);
        },
    };
    let bb = match b.num.checked_mul(b.num) {
        Some(v) => v,
        None => {
            return Err(SolveError::TooLarge);
        },
    };
    let s1 = match b.scale.checked_mul(2) {
        Some(v) => v,
        None => {
            return Err(SolveError::TooLarge);
        },
    };
    let ac = match a.num.checked_mul(c.num) {
        Some(v) => v,
        None => {
            return Err(SolveError::TooLarge);
        },
    };
    let fac = match ac.checked_mul(4) {
        Some(v) => v,
        None => {
            return Err(SolveError::TooLarge);
        },
    };
    let s2 = match a.scale.checked_add(c.scale) {
        Some(v) => v,
        None => {
            return Err(SolveError::TooLarge);
        },
    };
    let m = if s1 >= s2 {
        s1
    } else {
        s2
    };
    let n1 = match scale_up_i128(bb, m - s1) {
        Some(v) => v,
        None => {
            return Err(SolveError::TooLarge);
        },
    };
    let n2 = match scale_up_i128(fac, m - s2) {
        Some(v) => v,
        None => {
            return Err(SolveError::TooLarge);
        },
    };
    let dnum = match n1.checked_sub(n2) {
        Some(v) => v,
        None => {
            return Err(SolveError::TooLarge);
        },
    };
    if dnum < 0 {
        Ok(Solution::NoRealRoots)
    } else {
        Ok(
            Solution::RealRoots {
                neg_b: Decimal { num: neg_b_num, scale: b.scale },
                disc: Decimal { num: dnum, scale: m },
                two_a: Decimal { num: two_a_num, scale: a.scale },
            },
        )
    }
}

/// An exact rational number `num / den`.
#[derive(Clone, Copy, Debug, PartialEq, Eq, Structural)]
pub struct Ratio {
    pub num: i128,
    pub den: i128,
}

/// Whether the linear fallback's exact division stays representable.
pub open spec fn linear_fits(b: Decimal, c: Decimal) -> bool {
    &&& i128::MIN as int <= -(c.num as int) <= i128::MAX as int
    &&& i128::MIN as int <= -(c.num as int) * pow10(b.scale as nat) <= i128::MAX as int
    &&& i128::MIN as int <= b.num as int * pow10(c.scale as nat) <= i128::MAX as int
}

/// The linear fallback for a degenerate equation: the exact root
/// `x = -c / b` when `b` is not zero, and `None` when it is.
pub fn linear_root(b: &Decimal, c: &Decimal) -> (r: Result<Option<Ratio>, SolveError>)
    ensures
        r is Ok <==> (b.num == 0 || c.num == 0 || linear_fits(*b, *c)),
        r == Ok::<Option<Ratio>, SolveError>(None) <==> b.num == 0,
        match r {
            Ok(Some(rt)) => {
                &&& b.num != 0
                &&& rt.den != 0
                &&& rt.num as int * (b.num as int * pow10(c.scale as nat)) == -(c.num as int
                    * pow10(b.scale as nat)) * rt.den as int
            },
            Ok(None) => b.num == 0,
            Err(SolveError::TooLarge) => b.num != 0 && c.num != 0 && !linear_fits(*b, *c),
        },
{
    if b.num == 0 {
        return Ok(None);
    }
    if c.num == 0 {
        let rt = Ratio { num: 0, den: 1 };
        proof {
            lemma_pow10_pos(b.scale as nat);
            lemma_pow10_pos(c.scale as nat);
            assert(rt.num as int * (b.num as int * pow10(c.scale as nat)) == 0)
                by (nonlinear_arith)
                requires
                    rt.num as int == 0,
            ;
            assert(-(c.num as int * pow10(b.scale as nat)) * rt.den as int == 0)
                by (nonlinear_arith)
                requires
                    c.num as int == 0,
            ;
        }
        return Ok(Some(rt));
    }
    let zero_b: i128 = 0;
    let neg_c = match zero_b.checked_sub(c.num) {
        Some(v) => v,
        None => {
            return Err(SolveError::TooLarge);
        },
    };
    let num = match scale_up_i128(neg_c, b.scale) {
        Some(v) => v,
        None => {
            return Err(SolveError::TooLarge);
        },
    };
    let den = match scale_up_i128(b.num, c.scale) {
        Some(v) => v,
        None => {
            return Err(SolveError::TooLarge);
        },
    };
    proof {
        lemma_pow10_pos(c.scale as nat);
        assert(den as int != 0) by (nonlinear_arith)
            requires
                den as int == b.num as int * pow10(c.scale as nat),
                b.num as int != 0,
                pow10(c.scale as nat) >= 1,
        ;
        assert(num as int * (b.num as int * pow10(c.scale as nat)) == -(c.num as int * pow10(
            b.scale as nat,
        )) * den as int) by (nonlinear_arith)
            requires
                num as int == -(c.num as int) * pow10(b.scale as nat),
                den as int == b.num as int * pow10(c.scale as nat),
        ;
    }
    Ok(Some(Ratio { num, den }))
}

} // verus!

