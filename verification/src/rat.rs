//! Exact rational arithmetic.
//!
//! Every quantity of the simulation engines (lengths, virtual time, cost,
//! trust parameter) is an exact rational number: a pair of a signed numerator
//! and a positive denominator.  The mathematical model lives in [`SRat`]
//! (unbounded integers); the executable type [`Rat`] carries `i64` components
//! that are kept reduced by a verified Euclid's algorithm, and every operation
//! reports when a reduced result would not fit.

use vstd::prelude::*;
use vstd::arithmetic::div_mod::{lemma_fundamental_div_mod, lemma_div_multiples_vanish};

verus! {

/// A mathematical rational number: `n / d`, with `d >= 1` (see [`SRat::wf`]).
pub struct SRat {
    pub n: int,
    pub d: int,
}

impl SRat {
    /// Well-formed: the denominator is positive.
    pub open spec fn wf(self) -> bool {
        self.d >= 1
    }
}

/// The rational `k / 1`.
pub open spec fn rat_of_int(k: int) -> SRat {
    SRat { n: k, d: 1 }
}

/// Value equality of two rationals, by cross multiplication.
pub open spec fn rat_eq(a: SRat, b: SRat) -> bool {
    a.n * b.d == b.n * a.d
}

/// `a <= b`, by cross multiplication (meaningful when both are well-formed).
pub open spec fn rat_le(a: SRat, b: SRat) -> bool {
    a.n * b.d <= b.n * a.d
}

/// `a < b`, by cross multiplication.
pub open spec fn rat_lt(a: SRat, b: SRat) -> bool {
    a.n * b.d < b.n * a.d
}

/// Sum, on raw representatives (not reduced).
pub open spec fn rat_add_raw(a: SRat, b: SRat) -> SRat {
    SRat { n: a.n * b.d + b.n * a.d, d: a.d * b.d }
}

/// Difference, on raw representatives (not reduced).
pub open spec fn rat_sub_raw(a: SRat, b: SRat) -> SRat {
    SRat { n: a.n * b.d - b.n * a.d, d: a.d * b.d }
}

/// Product, on raw representatives (not reduced).
pub open spec fn rat_mul_raw(a: SRat, b: SRat) -> SRat {
    SRat { n: a.n * b.n, d: a.d * b.d }
}

/// Quotient, on raw representatives (not reduced); the sign moves to the
/// numerator so that the denominator stays positive.
pub open spec fn rat_div_raw(a: SRat, b: SRat) -> SRat {
    if b.n >= 0 {
        SRat { n: a.n * b.d, d: a.d * b.n }
    } else {
        SRat { n: -(a.n * b.d), d: -(a.d * b.n) }
    }
}

/// Magnitude of an integer.
pub open spec fn mag(n: int) -> nat {
    if n >= 0 {
        n as nat
    } else {
        (-n) as nat
    }
}

/// Greatest common divisor, by Euclid's algorithm.
pub open spec fn gcd(a: nat, b: nat) -> nat
    decreases b,
{
    if b == 0 {
        a
    } else {
        gcd(b, a % b)
    }
}

/// `d` divides `a`.
pub open spec fn divides(d: int, a: int) -> bool {
    exists|k: int| a == #[trigger] (d * k)
}

/// The reduced representative of `r`: both components divided by their gcd.
pub open spec fn rat_norm(r: SRat) -> SRat {
    let g = gcd(mag(r.n), r.d as nat) as int;
    SRat { n: r.n / g, d: r.d / g }
}

/// Reduced sum.
pub open spec fn rat_add(a: SRat, b: SRat) -> SRat {
    rat_norm(rat_add_raw(a, b))
}

/// Reduced difference.
pub open spec fn rat_sub(a: SRat, b: SRat) -> SRat {
    rat_norm(rat_sub_raw(a, b))
}

/// Reduced product.
pub open spec fn rat_mul(a: SRat, b: SRat) -> SRat {
    rat_norm(rat_mul_raw(a, b))
}

/// Reduced quotient.
pub open spec fn rat_div(a: SRat, b: SRat) -> SRat {
    rat_norm(rat_div_raw(a, b))
}

/// The smaller of two rationals; the left one when they are equal.
pub open spec fn rat_min(a: SRat, b: SRat) -> SRat {
    if rat_le(a, b) {
        a
    } else {
        b
    }
}

/// Whether an integer fits the executable numerator/denominator range.
/// The exact minimum of `i64` is left out so that magnitudes stay symmetric.
pub open spec fn fits_i64(n: int) -> bool {
    -0x7fff_ffff_ffff_ffff <= n <= 0x7fff_ffff_ffff_ffff
}

/// Whether a rational's reduced representative fits the executable type.
pub open spec fn rat_fits(r: SRat) -> bool {
    fits_i64(r.n) && fits_i64(r.d)
}

pub proof fn lemma_gcd_divides(a: nat, b: nat)
    ensures
        divides(gcd(a, b) as int, a as int),
        divides(gcd(a, b) as int, b as int),
        b >= 1 ==> gcd(a, b) >= 1,
    decreases b,
{
    if b == 0 {
        assert(a as int == (a as int) * 1);
        assert(b as int == (a as int) * 0);
    } else {
        lemma_gcd_divides(b, a % b);
        let g = gcd(b, a % b) as int;
        let k1 = choose|k: int| (b as int) == #[trigger] (g * k);
        let k2 = choose|k: int| ((a % b) as int) == #[trigger] (g * k);
        lemma_fundamental_div_mod(a as int, b as int);
        let q = a as int / b as int;
        let m = (a % b) as int;
        assert(a as int == g * (q * k1 + k2)) by (nonlinear_arith)
            requires
                a as int == (b as int) * q + m,
                b as int == g * k1,
                m == g * k2,
        ;
    }
}

pub proof fn lemma_div_exact(d: int, a: int)
    requires
        d >= 1,
        divides(d, a),
    ensures
        a == d * (a / d),
        a / d == a as int / d,
{
    let k = choose|k: int| a == #[trigger] (d * k);
    lemma_div_multiples_vanish(k, d);
}

/// Reducing a representative does not change the rational it denotes.
pub proof fn lemma_norm_eq(r: SRat)
    requires
        r.wf(),
    ensures
        rat_norm(r).wf(),
        rat_eq(rat_norm(r), r),
        rat_eq(r, rat_norm(r)),
{
    lemma_gcd_divides(mag(r.n), r.d as nat);
    let g = gcd(mag(r.n), r.d as nat) as int;
    assert(divides(g, r.n)) by {
        if r.n >= 0 {
        } else {
            let k = choose|k: int| (mag(r.n) as int) == #[trigger] (g * k);
            assert(r.n == g * (-k)) by (nonlinear_arith)
                requires
                    -r.n == g * k,
            ;
        }
    }
    lemma_div_exact(g, r.n);
    lemma_div_exact(g, r.d);
    let nr = r.n / g;
    let dr = r.d / g;
    assert(dr >= 1) by (nonlinear_arith)
        requires
            g >= 1,
            r.d >= 1,
            r.d == g * dr,
    ;
    assert(nr * r.d == r.n * dr) by (nonlinear_arith)
        requires
            r.n == g * nr,
            r.d == g * dr,
    ;
}

pub proof fn lemma_rat_le_trans(a: SRat, b: SRat, c: SRat)
    requires
        a.wf(),
        b.wf(),
        c.wf(),
        rat_le(a, b),
        rat_le(b, c),
    ensures
        rat_le(a, c),
{
    assert(a.n * c.d <= c.n * a.d) by (nonlinear_arith)
        requires
            a.d >= 1,
            b.d >= 1,
            c.d >= 1,
            a.n * b.d <= b.n * a.d,
            b.n * c.d <= c.n * b.d,
    ;
}

pub proof fn lemma_rat_lt_trans(a: SRat, b: SRat, c: SRat)
    requires
        a.wf(),
        b.wf(),
        c.wf(),
        rat_lt(a, b),
        rat_lt(b, c),
    ensures
        rat_lt(a, c),
{
    assert(a.n * c.d < c.n * a.d) by (nonlinear_arith)
        requires
            a.d >= 1,
            b.d >= 1,
            c.d >= 1,
            a.n * b.d < b.n * a.d,
            b.n * c.d < c.n * b.d,
    ;
}

pub proof fn lemma_rat_le_lt_trans(a: SRat, b: SRat, c: SRat)
    requires
        a.wf(),
        b.wf(),
        c.wf(),
        rat_le(a, b),
        rat_lt(b, c),
    ensures
        rat_lt(a, c),
{
    assert(a.n * c.d < c.n * a.d) by (nonlinear_arith)
        requires
            a.d >= 1,
            b.d >= 1,
            c.d >= 1,
            a.n * b.d <= b.n * a.d,
            b.n * c.d < c.n * b.d,
    ;
}

pub proof fn lemma_rat_eq_trans(a: SRat, b: SRat, c: SRat)
    requires
        a.wf(),
        b.wf(),
        c.wf(),
        rat_eq(a, b),
        rat_eq(b, c),
    ensures
        rat_eq(a, c),
{
    assert(a.n * c.d == c.n * a.d) by (nonlinear_arith)
        requires
            a.d >= 1,
            b.d >= 1,
            c.d >= 1,
            a.n * b.d == b.n * a.d,
            b.n * c.d == c.n * b.d,
    ;
}

/// Two equal rationals have the same sign.
pub proof fn lemma_rat_eq_sign(a: SRat, b: SRat)
    requires
        a.wf(),
        b.wf(),
        rat_eq(a, b),
    ensures
        a.n > 0 <==> b.n > 0,
        a.n == 0 <==> b.n == 0,
        a.n < 0 <==> b.n < 0,
{
    assert((a.n > 0 <==> b.n > 0) && (a.n == 0 <==> b.n == 0) && (a.n < 0 <==> b.n < 0))
        by (nonlinear_arith)
        requires
            a.d >= 1,
            b.d >= 1,
            a.n * b.d == b.n * a.d,
    ;
}

/// Comparisons agree on equal values.
pub proof fn lemma_rat_le_congr(a: SRat, b: SRat, a2: SRat, b2: SRat)
    requires
        a.wf(),
        b.wf(),
        a2.wf(),
        b2.wf(),
        rat_eq(a, a2),
        rat_eq(b, b2),
    ensures
        rat_le(a, b) <==> rat_le(a2, b2),
        rat_eq(a, b) <==> rat_eq(a2, b2),
{
    assert((a.n * b.d <= b.n * a.d <==> a2.n * b2.d <= b2.n * a2.d) && (a.n * b.d == b.n * a.d
        <==> a2.n * b2.d == b2.n * a2.d)) by (nonlinear_arith)
        requires
            a.d >= 1,
            b.d >= 1,
            a2.d >= 1,
            b2.d >= 1,
            a.n * a2.d == a2.n * a.d,
            b.n * b2.d == b2.n * b.d,
    ;
}

/// The reduced sum is well-formed and denotes the raw sum.
pub proof fn lemma_rat_add_exact(a: SRat, b: SRat)
    requires
        a.wf(),
        b.wf(),
    ensures
        rat_add(a, b).wf(),
        rat_eq(rat_add(a, b), rat_add_raw(a, b)),
        rat_eq(rat_add_raw(a, b), rat_add(a, b)),
        rat_add_raw(a, b).wf(),
{
    assert(a.d * b.d >= 1) by (nonlinear_arith)
        requires
            a.d >= 1,
            b.d >= 1,
    ;
    lemma_norm_eq(rat_add_raw(a, b));
}

/// The reduced difference is well-formed and denotes the raw difference.
pub proof fn lemma_rat_sub_exact(a: SRat, b: SRat)
    requires
        a.wf(),
        b.wf(),
    ensures
        rat_sub(a, b).wf(),
        rat_eq(rat_sub(a, b), rat_sub_raw(a, b)),
        rat_eq(rat_sub_raw(a, b), rat_sub(a, b)),
        rat_sub_raw(a, b).wf(),
{
    assert(a.d * b.d >= 1) by (nonlinear_arith)
        requires
            a.d >= 1,
            b.d >= 1,
    ;
    lemma_norm_eq(rat_sub_raw(a, b));
}

/// The reduced product is well-formed and denotes the raw product.
pub proof fn lemma_rat_mul_exact(a: SRat, b: SRat)
    requires
        a.wf(),
        b.wf(),
    ensures
        rat_mul(a, b).wf(),
        rat_eq(rat_mul(a, b), rat_mul_raw(a, b)),
        rat_eq(rat_mul_raw(a, b), rat_mul(a, b)),
        rat_mul_raw(a, b).wf(),
{
    assert(a.d * b.d >= 1) by (nonlinear_arith)
        requires
            a.d >= 1,
            b.d >= 1,
    ;
    lemma_norm_eq(rat_mul_raw(a, b));
}

/// The reduced quotient is well-formed and denotes the raw quotient.
pub proof fn lemma_rat_div_exact(a: SRat, b: SRat)
    requires
        a.wf(),
        b.wf(),
        b.n != 0,
    ensures
        rat_div(a, b).wf(),
        rat_eq(rat_div(a, b), rat_div_raw(a, b)),
        rat_eq(rat_div_raw(a, b), rat_div(a, b)),
        rat_div_raw(a, b).wf(),
{
    if b.n >= 1 {
        assert(a.d * b.n >= 1) by (nonlinear_arith)
            requires
                a.d >= 1,
                b.n >= 1,
        ;
    } else {
        assert(-(a.d * b.n) >= 1) by (nonlinear_arith)
            requires
                a.d >= 1,
                b.n <= -1,
        ;
    }
    lemma_norm_eq(rat_div_raw(a, b));
}

/// Subtracting a rational from an equal one gives an exact zero, which in
/// particular is within the tolerance.
pub proof fn lemma_rat_sub_eq_zero(x: SRat, y: SRat)
    requires
        x.wf(),
        y.wf(),
        rat_eq(x, y),
    ensures
        rat_sub(x, y).wf(),
        rat_sub(x, y).n == 0,
        rat_le(rat_sub(x, y), rat_tolerance()),
{
    lemma_rat_sub_exact(x, y);
    let raw = rat_sub_raw(x, y);
    let v = rat_sub(x, y);
    assert(raw.n == 0);
    assert(v.n == 0) by (nonlinear_arith)
        requires
            v.n * raw.d == raw.n * v.d,
            raw.n == 0,
            raw.d >= 1,
    ;
}

/// Multiplying and then dividing by the same non-zero rational is exact.
pub proof fn lemma_rat_mul_div_cancel(a: SRat, b: SRat)
    requires
        a.wf(),
        b.wf(),
        b.n != 0,
    ensures
        rat_div(rat_mul(a, b), b).wf(),
        rat_eq(rat_div(rat_mul(a, b), b), a),
        rat_eq(a, rat_div(rat_mul(a, b), b)),
{
    lemma_rat_mul_exact(a, b);
    let m = rat_mul(a, b);
    lemma_rat_div_exact(m, b);
    let dr = rat_div_raw(m, b);
    assert(rat_eq(dr, a)) by (nonlinear_arith)
        requires
            m.n * (a.d * b.d) == (a.n * b.n) * m.d,
            dr == rat_div_raw(m, b),
            b.n != 0,
            rat_div_raw(m, b) == if b.n >= 0 {
                SRat { n: m.n * b.d, d: m.d * b.n }
            } else {
                SRat { n: -(m.n * b.d), d: -(m.d * b.n) }
            },
    ;
    lemma_rat_eq_trans(rat_div(m, b), dr, a);
    assert(rat_eq(a, rat_div(m, b))) by (nonlinear_arith)
        requires
            rat_eq(rat_div(m, b), a),
    ;
}

/// Dividing and then multiplying by the same non-zero rational is exact.
pub proof fn lemma_rat_div_mul_cancel(a: SRat, b: SRat)
    requires
        a.wf(),
        b.wf(),
        b.n != 0,
    ensures
        rat_mul(rat_div(a, b), b).wf(),
        rat_eq(rat_mul(rat_div(a, b), b), a),
        rat_eq(a, rat_mul(rat_div(a, b), b)),
{
    lemma_rat_div_exact(a, b);
    let d = rat_div(a, b);
    lemma_rat_mul_exact(d, b);
    let mr = rat_mul_raw(d, b);
    let dr = rat_div_raw(a, b);
    assert(rat_eq(mr, a)) by (nonlinear_arith)
        requires
            d.n * dr.d == dr.n * d.d,
            mr == rat_mul_raw(d, b),
            b.n != 0,
            b.d >= 1,
            a.d >= 1,
            d.d >= 1,
            mr.d >= 1,
            dr == (if b.n >= 0 {
                SRat { n: a.n * b.d, d: a.d * b.n }
            } else {
                SRat { n: -(a.n * b.d), d: -(a.d * b.n) }
            }),
            mr == (SRat { n: d.n * b.n, d: d.d * b.d }),
    ;
    lemma_rat_eq_trans(rat_mul(d, b), mr, a);
    assert(rat_eq(a, rat_mul(d, b)));
}

/// Adding equal values to the same rational gives equal sums.
pub proof fn lemma_rat_add_congr(a: SRat, b: SRat, c: SRat)
    requires
        a.wf(),
        b.wf(),
        c.wf(),
        rat_eq(b, c),
    ensures
        rat_eq(rat_add(a, b), rat_add(a, c)),
{
    lemma_rat_add_exact(a, b);
    lemma_rat_add_exact(a, c);
    let rb = rat_add_raw(a, b);
    let rc = rat_add_raw(a, c);
    assert(rat_eq(rb, rc)) by (nonlinear_arith)
        requires
            b.n * c.d == c.n * b.d,
            a.d >= 1,
            b.d >= 1,
            c.d >= 1,
            rb == (SRat { n: a.n * b.d + b.n * a.d, d: a.d * b.d }),
            rc == (SRat { n: a.n * c.d + c.n * a.d, d: a.d * c.d }),
    ;
    lemma_rat_eq_trans(rat_add(a, b), rb, rc);
    lemma_rat_eq_trans(rat_add(a, b), rc, rat_add(a, c));
}

/// Adding back a difference restores the minuend.
pub proof fn lemma_rat_add_sub_cancel(t: SRat, m: SRat)
    requires
        t.wf(),
        m.wf(),
    ensures
        rat_eq(rat_add(t, rat_sub(m, t)), m),
        rat_eq(m, rat_add(t, rat_sub(m, t))),
{
    lemma_rat_sub_exact(m, t);
    let d = rat_sub(m, t);
    lemma_rat_add_exact(t, d);
    let r = rat_add_raw(t, d);
    let sr = rat_sub_raw(m, t);
    assert(rat_eq(r, m)) by (nonlinear_arith)
        requires
            d.n * sr.d == sr.n * d.d,
            t.d >= 1,
            m.d >= 1,
            d.d >= 1,
            sr == (SRat { n: m.n * t.d - t.n * m.d, d: m.d * t.d }),
            r == (SRat { n: t.n * d.d + d.n * t.d, d: t.d * d.d }),
    ;
    lemma_rat_eq_trans(rat_add(t, d), r, m);
    assert(rat_eq(m, rat_add(t, d)));
}

/// A rational equals zero exactly when its numerator is zero.
pub proof fn lemma_rat_zero_eq(a: SRat)
    ensures
        rat_eq(a, rat_of_int(0)) <==> a.n == 0,
        rat_eq(rat_of_int(0), a) <==> a.n == 0,
{
    assert((a.n * 1 == 0 * a.d <==> a.n == 0) && (0 * a.d == a.n * 1 <==> a.n == 0))
        by (nonlinear_arith);
}

proof fn lemma_mul_both(x: int, y: int, z: int)
    requires
        x == y,
    ensures
        x * z == y * z,
{
    assert(x * z == y * z) by (nonlinear_arith)
        requires
            x == y,
    ;
}

/// Addition is commutative, on the nose.
pub proof fn lemma_rat_add_comm(a: SRat, b: SRat)
    ensures
        rat_add(a, b) == rat_add(b, a),
{
    assert(rat_add_raw(a, b) == rat_add_raw(b, a)) by (nonlinear_arith);
}

/// Multiplication is commutative, on the nose.
pub proof fn lemma_rat_mul_comm(a: SRat, b: SRat)
    ensures
        rat_mul(a, b) == rat_mul(b, a),
{
    assert(rat_mul_raw(a, b) == rat_mul_raw(b, a)) by (nonlinear_arith);
}

/// Addition respects value equality in both arguments.
pub proof fn lemma_rat_add_congr2(a: SRat, b: SRat, a2: SRat, b2: SRat)
    requires
        a.wf(),
        b.wf(),
        a2.wf(),
        b2.wf(),
        rat_eq(a, a2),
        rat_eq(b, b2),
    ensures
        rat_eq(rat_add(a, b), rat_add(a2, b2)),
        rat_eq(rat_add(a2, b2), rat_add(a, b)),
{
    lemma_rat_add_congr(a, b, b2);
    lemma_rat_add_comm(a, b2);
    lemma_rat_add_congr(b2, a, a2);
    lemma_rat_add_comm(b2, a2);
    lemma_rat_add_exact(a, b);
    lemma_rat_add_exact(a, b2);
    lemma_rat_add_exact(b2, a2);
    lemma_rat_add_exact(a2, b2);
    lemma_rat_eq_trans(rat_add(a, b), rat_add(a, b2), rat_add(b2, a2));
    assert(rat_add(b2, a2) == rat_add(a2, b2));
    assert(rat_eq(rat_add(a2, b2), rat_add(a, b))) by (nonlinear_arith)
        requires
            rat_eq(rat_add(a, b), rat_add(a2, b2)),
    ;
}

/// Multiplication respects value equality in one argument.
pub proof fn lemma_rat_mul_congr(a: SRat, b: SRat, c: SRat)
    requires
        a.wf(),
        b.wf(),
        c.wf(),
        rat_eq(b, c),
    ensures
        rat_eq(rat_mul(a, b), rat_mul(a, c)),
{
    lemma_rat_mul_exact(a, b);
    lemma_rat_mul_exact(a, c);
    let rb = rat_mul_raw(a, b);
    let rc = rat_mul_raw(a, c);
    assert(rat_eq(rb, rc)) by (nonlinear_arith)
        requires
            b.n * c.d == c.n * b.d,
            rb == (SRat { n: a.n * b.n, d: a.d * b.d }),
            rc == (SRat { n: a.n * c.n, d: a.d * c.d }),
    ;
    lemma_rat_eq_trans(rat_mul(a, b), rb, rc);
    lemma_rat_eq_trans(rat_mul(a, b), rc, rat_mul(a, c));
}

/// Multiplication respects value equality in both arguments.
pub proof fn lemma_rat_mul_congr2(a: SRat, b: SRat, a2: SRat, b2: SRat)
    requires
        a.wf(),
        b.wf(),
        a2.wf(),
        b2.wf(),
        rat_eq(a, a2),
        rat_eq(b, b2),
    ensures
        rat_eq(rat_mul(a, b), rat_mul(a2, b2)),
        rat_eq(rat_mul(a2, b2), rat_mul(a, b)),
{
    lemma_rat_mul_congr(a, b, b2);
    lemma_rat_mul_comm(a, b2);
    lemma_rat_mul_congr(b2, a, a2);
    lemma_rat_mul_comm(b2, a2);
    lemma_rat_mul_exact(a, b);
    lemma_rat_mul_exact(a, b2);
    lemma_rat_mul_exact(b2, a2);
    lemma_rat_mul_exact(a2, b2);
    lemma_rat_eq_trans(rat_mul(a, b), rat_mul(a, b2), rat_mul(b2, a2));
    assert(rat_mul(b2, a2) == rat_mul(a2, b2));
    assert(rat_eq(rat_mul(a2, b2), rat_mul(a, b))) by (nonlinear_arith)
        requires
            rat_eq(rat_mul(a, b), rat_mul(a2, b2)),
    ;
}

/// One is neutral for multiplication, zero for addition; multiplying by zero
/// and dividing by one are as expected.
pub proof fn lemma_rat_neutral(a: SRat)
    requires
        a.wf(),
    ensures
        rat_eq(rat_mul(a, rat_of_int(1)), a),
        rat_eq(a, rat_mul(a, rat_of_int(1))),
        rat_eq(rat_mul(rat_of_int(1), a), a),
        rat_eq(a, rat_mul(rat_of_int(1), a)),
        rat_eq(rat_div(a, rat_of_int(1)), a),
        rat_eq(a, rat_div(a, rat_of_int(1))),
        rat_eq(rat_add(a, rat_of_int(0)), a),
        rat_eq(a, rat_add(a, rat_of_int(0))),
        rat_eq(rat_add(rat_of_int(0), a), a),
        rat_eq(a, rat_add(rat_of_int(0), a)),
        rat_eq(rat_mul(rat_of_int(0), a), rat_of_int(0)),
        rat_eq(rat_mul(a, rat_of_int(0)), rat_of_int(0)),
        rat_mul(a, rat_of_int(1)).wf(),
        rat_add(a, rat_of_int(0)).wf(),
{
    let one = rat_of_int(1);
    let zero = rat_of_int(0);
    lemma_rat_mul_exact(a, one);
    lemma_rat_mul_exact(one, a);
    lemma_rat_div_exact(a, one);
    lemma_rat_add_exact(a, zero);
    lemma_rat_add_exact(zero, a);
    lemma_rat_mul_exact(zero, a);
    lemma_rat_mul_exact(a, zero);
    assert(rat_eq(rat_mul_raw(a, one), a) && rat_eq(rat_mul_raw(one, a), a) && rat_eq(
        rat_div_raw(a, one),
        a,
    ) && rat_eq(rat_add_raw(a, zero), a) && rat_eq(rat_add_raw(zero, a), a) && rat_eq(
        rat_mul_raw(zero, a),
        zero,
    ) && rat_eq(rat_mul_raw(a, zero), zero)) by (nonlinear_arith)
        requires
            a.d >= 1,
            one == (SRat { n: 1, d: 1 }),
            zero == (SRat { n: 0, d: 1 }),
    ;
    lemma_rat_eq_trans(rat_mul(a, one), rat_mul_raw(a, one), a);
    lemma_rat_eq_trans(rat_mul(one, a), rat_mul_raw(one, a), a);
    lemma_rat_eq_trans(rat_div(a, one), rat_div_raw(a, one), a);
    lemma_rat_eq_trans(rat_add(a, zero), rat_add_raw(a, zero), a);
    lemma_rat_eq_trans(rat_add(zero, a), rat_add_raw(zero, a), a);
    lemma_rat_eq_trans(rat_mul(zero, a), rat_mul_raw(zero, a), zero);
    lemma_rat_eq_trans(rat_mul(a, zero), rat_mul_raw(a, zero), zero);
    assert(rat_eq(a, rat_mul(a, one)) && rat_eq(a, rat_mul(one, a)) && rat_eq(a, rat_div(a, one))
        && rat_eq(a, rat_add(a, zero)) && rat_eq(a, rat_add(zero, a))) by (nonlinear_arith)
        requires
            rat_eq(rat_mul(a, one), a),
            rat_eq(rat_mul(one, a), a),
            rat_eq(rat_div(a, one), a),
            rat_eq(rat_add(a, zero), a),
            rat_eq(rat_add(zero, a), a),
    ;
}

/// Addition is associative, up to value equality.
pub proof fn lemma_rat_add_assoc(a: SRat, b: SRat, c: SRat)
    requires
        a.wf(),
        b.wf(),
        c.wf(),
    ensures
        rat_eq(rat_add(rat_add(a, b), c), rat_add(a, rat_add(b, c))),
        rat_eq(rat_add(a, rat_add(b, c)), rat_add(rat_add(a, b), c)),
{
    lemma_rat_add_exact(a, b);
    lemma_rat_add_exact(b, c);
    let rab = rat_add_raw(a, b);
    let rbc = rat_add_raw(b, c);
    lemma_rat_add_congr2(rat_add(a, b), c, rab, c);
    lemma_rat_add_congr2(a, rat_add(b, c), a, rbc);
    lemma_rat_add_exact(rab, c);
    lemma_rat_add_exact(a, rbc);
    lemma_rat_add_exact(rat_add(a, b), c);
    lemma_rat_add_exact(a, rat_add(b, c));
    let lft = rat_add_raw(rab, c);
    let rgt = rat_add_raw(a, rbc);
    assert((a.n * b.d) * c.d == a.n * (b.d * c.d)) by (nonlinear_arith);
    assert((b.n * a.d) * c.d == (b.n * c.d) * a.d) by (nonlinear_arith);
    assert(c.n * (a.d * b.d) == (c.n * b.d) * a.d) by (nonlinear_arith);
    assert((a.n * b.d + b.n * a.d) * c.d == (a.n * b.d) * c.d + (b.n * a.d) * c.d)
        by (nonlinear_arith);
    assert((b.n * c.d + c.n * b.d) * a.d == (b.n * c.d) * a.d + (c.n * b.d) * a.d)
        by (nonlinear_arith);
    assert(lft.n == rgt.n);
    assert((a.d * b.d) * c.d == a.d * (b.d * c.d)) by (nonlinear_arith);
    assert(lft.d == rgt.d);
    assert(rat_eq(lft, rgt));
    lemma_rat_eq_trans(rat_add(rat_add(a, b), c), rat_add(rab, c), lft);
    lemma_rat_eq_trans(rat_add(rat_add(a, b), c), lft, rgt);
    lemma_rat_eq_trans(rat_add(rat_add(a, b), c), rgt, rat_add(a, rbc));
    lemma_rat_eq_trans(rat_add(rat_add(a, b), c), rat_add(a, rbc), rat_add(a, rat_add(b, c)));
    assert(rat_eq(rat_add(a, rat_add(b, c)), rat_add(rat_add(a, b), c))) by (nonlinear_arith)
        requires
            rat_eq(rat_add(rat_add(a, b), c), rat_add(a, rat_add(b, c))),
    ;
}

/// Multiplication distributes over addition, up to value equality.
pub proof fn lemma_rat_mul_distrib(m: SRat, a: SRat, b: SRat)
    requires
        m.wf(),
        a.wf(),
        b.wf(),
    ensures
        rat_eq(rat_mul(m, rat_add(a, b)), rat_add(rat_mul(m, a), rat_mul(m, b))),
        rat_eq(rat_add(rat_mul(m, a), rat_mul(m, b)), rat_mul(m, rat_add(a, b))),
{
    lemma_rat_add_exact(a, b);
    lemma_rat_mul_exact(m, a);
    lemma_rat_mul_exact(m, b);
    let rab = rat_add_raw(a, b);
    let rma = rat_mul_raw(m, a);
    let rmb = rat_mul_raw(m, b);
    lemma_rat_mul_congr2(m, rat_add(a, b), m, rab);
    lemma_rat_add_congr2(rat_mul(m, a), rat_mul(m, b), rma, rmb);
    lemma_rat_mul_exact(m, rab);
    lemma_rat_add_exact(rma, rmb);
    lemma_rat_mul_exact(m, rat_add(a, b));
    lemma_rat_add_exact(rat_mul(m, a), rat_mul(m, b));
    let lft = rat_mul_raw(m, rab);
    let rgt = rat_add_raw(rma, rmb);
    assert(m.n * (a.n * b.d + b.n * a.d) == m.n * (a.n * b.d) + m.n * (b.n * a.d))
        by (nonlinear_arith);
    assert((m.n * a.n) * (m.d * b.d) == m.d * (m.n * (a.n * b.d))) by (nonlinear_arith);
    assert((m.n * b.n) * (m.d * a.d) == m.d * (m.n * (b.n * a.d))) by (nonlinear_arith);
    assert(m.d * (m.n * (a.n * b.d) + m.n * (b.n * a.d)) == m.d * (m.n * (a.n * b.d)) + m.d * (m.n
        * (b.n * a.d))) by (nonlinear_arith);
    assert(rgt.n == m.d * lft.n);
    assert((m.d * a.d) * (m.d * b.d) == m.d * (m.d * (a.d * b.d))) by (nonlinear_arith);
    assert(rgt.d == m.d * lft.d);
    assert(rat_eq(lft, rgt)) by (nonlinear_arith)
        requires
            rgt.n == m.d * lft.n,
            rgt.d == m.d * lft.d,
    ;
    lemma_rat_eq_trans(rat_mul(m, rat_add(a, b)), rat_mul(m, rab), lft);
    lemma_rat_eq_trans(rat_mul(m, rat_add(a, b)), lft, rgt);
    lemma_rat_eq_trans(rat_mul(m, rat_add(a, b)), rgt, rat_add(rma, rmb));
    lemma_rat_eq_trans(
        rat_mul(m, rat_add(a, b)),
        rat_add(rma, rmb),
        rat_add(rat_mul(m, a), rat_mul(m, b)),
    );
    assert(rat_eq(rat_add(rat_mul(m, a), rat_mul(m, b)), rat_mul(m, rat_add(a, b))))
        by (nonlinear_arith)
        requires
            rat_eq(rat_mul(m, rat_add(a, b)), rat_add(rat_mul(m, a), rat_mul(m, b))),
    ;
}

/// `x + k * x` equals `(k + 1) * x`, up to value equality.
pub proof fn lemma_rat_mul_succ(k: int, a: SRat)
    requires
        a.wf(),
    ensures
        rat_eq(rat_add(a, rat_mul(rat_of_int(k), a)), rat_mul(rat_of_int(k + 1), a)),
        rat_eq(rat_mul(rat_of_int(k + 1), a), rat_add(a, rat_mul(rat_of_int(k), a))),
{
    lemma_rat_mul_exact(rat_of_int(k), a);
    let rka = rat_mul_raw(rat_of_int(k), a);
    lemma_rat_add_congr2(a, rat_mul(rat_of_int(k), a), a, rka);
    lemma_rat_add_exact(a, rka);
    lemma_rat_add_exact(a, rat_mul(rat_of_int(k), a));
    lemma_rat_mul_exact(rat_of_int(k + 1), a);
    assert(rat_eq(rat_add_raw(a, rka), rat_mul_raw(rat_of_int(k + 1), a))) by (nonlinear_arith)
        requires
            a.d >= 1,
            rka == (SRat { n: k * a.n, d: 1 * a.d }),
            rat_add_raw(a, rka) == (SRat { n: a.n * rka.d + rka.n * a.d, d: a.d * rka.d }),
            rat_mul_raw(rat_of_int(k + 1), a) == (SRat { n: (k + 1) * a.n, d: 1 * a.d }),
    ;
    lemma_rat_eq_trans(rat_add(a, rat_mul(rat_of_int(k), a)), rat_add(a, rka), rat_add_raw(a, rka));
    lemma_rat_eq_trans(
        rat_add(a, rat_mul(rat_of_int(k), a)),
        rat_add_raw(a, rka),
        rat_mul_raw(rat_of_int(k + 1), a),
    );
    lemma_rat_eq_trans(
        rat_add(a, rat_mul(rat_of_int(k), a)),
        rat_mul_raw(rat_of_int(k + 1), a),
        rat_mul(rat_of_int(k + 1), a),
    );
    assert(rat_eq(rat_mul(rat_of_int(k + 1), a), rat_add(a, rat_mul(rat_of_int(k), a))))
        by (nonlinear_arith)
        requires
            rat_eq(rat_add(a, rat_mul(rat_of_int(k), a)), rat_mul(rat_of_int(k + 1), a)),
    ;
}

/// Subtraction respects value equality in one argument at a time.
#[verifier::rlimit(100)]
proof fn lemma_rat_sub_congr_r(a: SRat, b: SRat, b2: SRat)
    requires
        a.wf(),
        b.wf(),
        b2.wf(),
        rat_eq(b, b2),
    ensures
        rat_eq(rat_sub(a, b), rat_sub(a, b2)),
{
    lemma_rat_sub_exact(a, b);
    lemma_rat_sub_exact(a, b2);
    let ra = rat_sub_raw(a, b);
    let rb = rat_sub_raw(a, b2);
    assert((a.n * b.d - b.n * a.d) * (a.d * b2.d) == (a.n * b.d) * (a.d * b2.d) - (b.n * a.d) * (
    a.d * b2.d)) by (nonlinear_arith);
    assert((a.n * b2.d - b2.n * a.d) * (a.d * b.d) == (a.n * b2.d) * (a.d * b.d) - (b2.n * a.d) * (
    a.d * b.d)) by (nonlinear_arith);
    assert((a.n * b.d) * (a.d * b2.d) == (a.n * b2.d) * (a.d * b.d)) by (nonlinear_arith);
    lemma_mul_both(b.n * b2.d, b2.n * b.d, a.d * a.d);
    assert((b.n * a.d) * (a.d * b2.d) == (b2.n * a.d) * (a.d * b.d)) by (nonlinear_arith)
        requires
            (b.n * b2.d) * (a.d * a.d) == (b2.n * b.d) * (a.d * a.d),
    ;
    assert(rat_eq(ra, rb));
    lemma_rat_eq_trans(rat_sub(a, b), ra, rb);
    lemma_rat_eq_trans(rat_sub(a, b), rb, rat_sub(a, b2));
}

#[verifier::rlimit(100)]
proof fn lemma_rat_sub_congr_l(a: SRat, a2: SRat, b: SRat)
    requires
        a.wf(),
        a2.wf(),
        b.wf(),
        rat_eq(a, a2),
    ensures
        rat_eq(rat_sub(a, b), rat_sub(a2, b)),
{
    lemma_rat_sub_exact(a, b);
    lemma_rat_sub_exact(a2, b);
    let ra = rat_sub_raw(a, b);
    let rb = rat_sub_raw(a2, b);
    assert((a.n * b.d - b.n * a.d) * (a2.d * b.d) == (a.n * b.d) * (a2.d * b.d) - (b.n * a.d) * (
    a2.d * b.d)) by (nonlinear_arith);
    assert((a2.n * b.d - b.n * a2.d) * (a.d * b.d) == (a2.n * b.d) * (a.d * b.d) - (b.n * a2.d) * (
    a.d * b.d)) by (nonlinear_arith);
    lemma_mul_both(a.n * a2.d, a2.n * a.d, b.d * b.d);
    assert((a.n * b.d) * (a2.d * b.d) == (a2.n * b.d) * (a.d * b.d)) by (nonlinear_arith)
        requires
            (a.n * a2.d) * (b.d * b.d) == (a2.n * a.d) * (b.d * b.d),
    ;
    assert((b.n * a.d) * (a2.d * b.d) == (b.n * a2.d) * (a.d * b.d)) by (nonlinear_arith);
    assert(rat_eq(ra, rb));
    lemma_rat_eq_trans(rat_sub(a, b), ra, rb);
    lemma_rat_eq_trans(rat_sub(a, b), rb, rat_sub(a2, b));
}

/// Subtraction respects value equality in both arguments.
pub proof fn lemma_rat_sub_congr2(a: SRat, b: SRat, a2: SRat, b2: SRat)
    requires
        a.wf(),
        b.wf(),
        a2.wf(),
        b2.wf(),
        rat_eq(a, a2),
        rat_eq(b, b2),
    ensures
        rat_eq(rat_sub(a, b), rat_sub(a2, b2)),
        rat_eq(rat_sub(a2, b2), rat_sub(a, b)),
{
    lemma_rat_sub_congr_r(a, b, b2);
    lemma_rat_sub_congr_l(a, a2, b2);
    lemma_rat_sub_exact(a, b);
    lemma_rat_sub_exact(a, b2);
    lemma_rat_sub_exact(a2, b2);
    lemma_rat_eq_trans(rat_sub(a, b), rat_sub(a, b2), rat_sub(a2, b2));
    assert(rat_eq(rat_sub(a2, b2), rat_sub(a, b))) by (nonlinear_arith)
        requires
            rat_eq(rat_sub(a, b), rat_sub(a2, b2)),
    ;
}

/// Facts around an exact zero: dividing it leaves zero, subtracting it
/// leaves the minuend, and a positive times a positive is positive.
pub proof fn lemma_rat_zero_misc(a: SRat, b: SRat)
    requires
        a.wf(),
        b.wf(),
    ensures
        rat_eq(a, rat_of_int(0)) && b.n != 0 ==> rat_eq(rat_div(a, b), rat_of_int(0)),
        rat_eq(b, rat_of_int(0)) ==> rat_eq(rat_sub(a, b), a) && rat_eq(a, rat_sub(a, b)),
        a.n > 0 && b.n > 0 ==> rat_mul(a, b).n > 0,
{
    lemma_rat_zero_eq(a);
    lemma_rat_zero_eq(b);
    if rat_eq(a, rat_of_int(0)) && b.n != 0 {
        lemma_rat_div_exact(a, b);
        let dr = rat_div_raw(a, b);
        assert(dr.n == 0) by (nonlinear_arith)
            requires
                a.n == 0,
                dr == rat_div_raw(a, b),
                rat_div_raw(a, b) == if b.n >= 0 {
                    SRat { n: a.n * b.d, d: a.d * b.n }
                } else {
                    SRat { n: -(a.n * b.d), d: -(a.d * b.n) }
                },
        ;
        lemma_rat_eq_sign(rat_div(a, b), dr);
        lemma_rat_zero_eq(rat_div(a, b));
    }
    if rat_eq(b, rat_of_int(0)) {
        lemma_rat_sub_exact(a, b);
        let sr = rat_sub_raw(a, b);
        assert(rat_eq(sr, a)) by (nonlinear_arith)
            requires
                b.n == 0,
                b.d >= 1,
                a.d >= 1,
                sr == (SRat { n: a.n * b.d - b.n * a.d, d: a.d * b.d }),
        ;
        lemma_rat_eq_trans(rat_sub(a, b), sr, a);
        assert(rat_eq(a, rat_sub(a, b))) by (nonlinear_arith)
            requires
                rat_eq(rat_sub(a, b), a),
        ;
    }
    if a.n > 0 && b.n > 0 {
        lemma_rat_mul_exact(a, b);
        let mr = rat_mul_raw(a, b);
        assert(mr.n > 0) by (nonlinear_arith)
            requires
                a.n > 0,
                b.n > 0,
                mr == (SRat { n: a.n * b.n, d: a.d * b.d }),
        ;
        lemma_rat_eq_sign(rat_mul(a, b), mr);
    }
}

/// Comparisons against the integers zero and one read off the components.
pub proof fn lemma_rat_int_bounds(a: SRat)
    ensures
        rat_le(rat_of_int(0), a) <==> a.n >= 0,
        rat_lt(rat_of_int(0), a) <==> a.n > 0,
        rat_le(a, rat_of_int(1)) <==> a.n <= a.d,
{
    assert((0 * a.d <= a.n * 1 <==> a.n >= 0) && (0 * a.d < a.n * 1 <==> a.n > 0) && (a.n * 1
        <= 1 * a.d <==> a.n <= a.d)) by (nonlinear_arith);
}

/// Executable rational number.  The components are kept reduced; the
/// denominator is always positive.
#[derive(Clone, Copy, PartialEq, Eq, Structural, Debug)]
pub struct Rat {
    num: i64,
    den: i64,
}

impl View for Rat {
    type V = SRat;

    closed spec fn view(&self) -> SRat {
        SRat { n: self.num as int, d: self.den as int }
    }
}

pub(crate) fn gcd_u128(a: u128, b: u128) -> (g: u128)
    ensures
        g as nat == gcd(a as nat, b as nat),
{
    let mut x: u128 = a;
    let mut y: u128 = b;
    while y != 0
        invariant
            gcd(x as nat, y as nat) == gcd(a as nat, b as nat),
        decreases y,
    {
        let t: u128 = x % y;
        x = y;
        y = t;
    }
    x
}

proof fn lemma_mul_i64_range(x: int, y: int)
    requires
        -0x8000_0000_0000_0000 <= x <= 0x7fff_ffff_ffff_ffff,
        -0x8000_0000_0000_0000 <= y <= 0x7fff_ffff_ffff_ffff,
    ensures
        -0x4000_0000_0000_0000_0000_0000_0000_0000 <= x * y
            <= 0x4000_0000_0000_0000_0000_0000_0000_0000,
    {
    assert(-0x4000_0000_0000_0000_0000_0000_0000_0000 <= x * y
        <= 0x4000_0000_0000_0000_0000_0000_0000_0000) by (nonlinear_arith)
        requires
            -0x8000_0000_0000_0000 <= x <= 0x8000_0000_0000_0000,
            -0x8000_0000_0000_0000 <= y <= 0x8000_0000_0000_0000,
    ;
}

proof fn lemma_mul_i64_by_den(x: int, d: int)
    requires
        -0x8000_0000_0000_0000 <= x <= 0x7fff_ffff_ffff_ffff,
        1 <= d <= 0x7fff_ffff_ffff_ffff,
    ensures
        -0x3fff_ffff_ffff_ffff_8000_0000_0000_0000 <= x * d
            <= 0x3fff_ffff_ffff_ffff_8000_0000_0000_0000,
    {
    assert(-0x3fff_ffff_ffff_ffff_8000_0000_0000_0000 <= x * d
        <= 0x3fff_ffff_ffff_ffff_8000_0000_0000_0000) by (nonlinear_arith)
        requires
            -0x8000_0000_0000_0000 <= x <= 0x8000_0000_0000_0000,
            1 <= d <= 0x7fff_ffff_ffff_ffff,
    ;
}

impl Rat {
    #[verifier::type_invariant]
    closed spec fn rat_inv(self) -> bool {
        self.den >= 1
    }

    /// The rational `n / 1`.
    pub fn from_int(n: i64) -> (r: Rat)
        ensures
            r@ == rat_of_int(n as int),
            r@.wf(),
    {
        Rat { num: n, den: 1 }
    }

    /// The rational `num / den`, reduced; rejects a non-positive denominator
    /// and a reduced value out of the executable range.
    pub fn new(num: i64, den: i64) -> (r: Option<Rat>)
        ensures
            den >= 1 ==> {
                let v = rat_norm(SRat { n: num as int, d: den as int });
                &&& (r is Some <==> rat_fits(v))
                &&& (r matches Some(x) ==> x@ == v && x@.wf())
            },
            den < 1 ==> r is None,
    {
        if den < 1 {
            None
        } else {
            Rat::reduce(num as i128, den as i128)
        }
    }

    /// The named finishing tolerance: `1 / 10000`.
    pub fn tolerance() -> (r: Rat)
        ensures
            r@ == rat_tolerance(),
            r@.wf(),
    {
        Rat { num: 1, den: 10000 }
    }

    /// Numerator of the reduced representation.
    pub fn num(&self) -> (n: i64)
        ensures
            n as int == self@.n,
    {
        self.num
    }

    /// Denominator of the reduced representation; always positive.
    pub fn den(&self) -> (d: i64)
        ensures
            d as int == self@.d,
            d >= 1,
    {
        proof {
            use_type_invariant(self);
        }
        self.den
    }

    fn reduce(n0: i128, d0: i128) -> (r: Option<Rat>)
        requires
            d0 >= 1,
            -0x7fff_ffff_ffff_ffff_ffff_ffff_ffff_ffff <= n0,
        ensures
            ({
                let v = rat_norm(SRat { n: n0 as int, d: d0 as int });
                &&& (r is Some <==> rat_fits(v))
                &&& (r matches Some(x) ==> x@ == v && x@.wf())
            }),
    {
        let ghost sr = SRat { n: n0 as int, d: d0 as int };
        let neg: bool = n0 < 0;
        let na: u128 = if neg {
            (-n0) as u128
        } else {
            n0 as u128
        };
        assert(na as nat == mag(sr.n));
        let g: u128 = gcd_u128(na, d0 as u128);
        proof {
            lemma_gcd_divides(na as nat, d0 as nat);
            lemma_div_exact(g as int, na as int);
            lemma_div_exact(g as int, d0 as int);
        }
        let q: u128 = na / g;
        let dq: u128 = (d0 as u128) / g;
        proof {
            assert(dq >= 1 && g <= d0) by (nonlinear_arith)
                requires
                    g >= 1,
                    d0 >= 1,
                    d0 as int == (g as int) * (dq as int),
            ;
            if neg {
                assert(sr.n == (g as int) * (-(q as int))) by (nonlinear_arith)
                    requires
                        na as int == (g as int) * (q as int),
                        sr.n == -(na as int),
                ;
                lemma_div_multiples_vanish(-(q as int), g as int);
            }
        }
        if q > 0x7fff_ffff_ffff_ffff || dq > 0x7fff_ffff_ffff_ffff {
            return None;
        }
        let nr: i64 = if neg {
            -(q as i64)
        } else {
            q as i64
        };
        Some(Rat { num: nr, den: dq as i64 })
    }

    /// Sum; reports a reduced result out of the executable range.
    pub fn checked_add(self, other: Rat) -> (r: Option<Rat>)
        ensures
            r is Some <==> rat_fits(rat_add(self@, other@)),
            r matches Some(v) ==> v@ == rat_add(self@, other@) && v@.wf(),
    {
        proof {
            use_type_invariant(self);
            use_type_invariant(other);
            lemma_mul_i64_by_den(self.num as int, other.den as int);
            lemma_mul_i64_by_den(other.num as int, self.den as int);
            lemma_mul_i64_range(self.den as int, other.den as int);
        }
        let n0: i128 = (self.num as i128) * (other.den as i128) + (other.num as i128) * (self.den
            as i128);
        let d0: i128 = (self.den as i128) * (other.den as i128);
        proof {
            assert(d0 >= 1) by (nonlinear_arith)
                requires
                    self.den >= 1,
                    other.den >= 1,
                    d0 == (self.den as int) * (other.den as int),
            ;
        }
        Rat::reduce(n0, d0)
    }

    /// Difference; reports a reduced result out of the executable range.
    pub fn checked_sub(self, other: Rat) -> (r: Option<Rat>)
        ensures
            r is Some <==> rat_fits(rat_sub(self@, other@)),
            r matches Some(v) ==> v@ == rat_sub(self@, other@) && v@.wf(),
    {
        proof {
            use_type_invariant(self);
            use_type_invariant(other);
            lemma_mul_i64_by_den(self.num as int, other.den as int);
            lemma_mul_i64_by_den(other.num as int, self.den as int);
            lemma_mul_i64_range(self.den as int, other.den as int);
        }
        let n0: i128 = (self.num as i128) * (other.den as i128) - (other.num as i128) * (self.den
            as i128);
        let d0: i128 = (self.den as i128) * (other.den as i128);
        proof {
            assert(d0 >= 1) by (nonlinear_arith)
                requires
                    self.den >= 1,
                    other.den >= 1,
                    d0 == (self.den as int) * (other.den as int),
            ;
        }
        Rat::reduce(n0, d0)
    }

    /// Product; reports a reduced result out of the executable range.
    pub fn checked_mul(self, other: Rat) -> (r: Option<Rat>)
        ensures
            r is Some <==> rat_fits(rat_mul(self@, other@)),
            r matches Some(v) ==> v@ == rat_mul(self@, other@) && v@.wf(),
    {
        proof {
            use_type_invariant(self);
            use_type_invariant(other);
            lemma_mul_i64_range(self.num as int, other.num as int);
            lemma_mul_i64_range(self.den as int, other.den as int);
        }
        let n0: i128 = (self.num as i128) * (other.num as i128);
        let d0: i128 = (self.den as i128) * (other.den as i128);
        proof {
            assert(d0 >= 1) by (nonlinear_arith)
                requires
                    self.den >= 1,
                    other.den >= 1,
                    d0 == (self.den as int) * (other.den as int),
            ;
        }
        Rat::reduce(n0, d0)
    }

    /// Quotient; the divisor must not be zero; reports a reduced result out
    /// of the executable range.
    pub fn checked_div(self, other: Rat) -> (r: Option<Rat>)
        requires
            other@.n != 0,
        ensures
            r is Some <==> rat_fits(rat_div(self@, other@)),
            r matches Some(v) ==> v@ == rat_div(self@, other@) && v@.wf(),
    {
        proof {
            use_type_invariant(self);
            use_type_invariant(other);
            lemma_mul_i64_range(self.num as int, other.den as int);
            lemma_mul_i64_range(self.den as int, other.num as int);
        }
        let mut n0: i128 = (self.num as i128) * (other.den as i128);
        let mut d0: i128 = (self.den as i128) * (other.num as i128);
        proof {
            if other.num >= 1 {
                assert(d0 >= 1) by (nonlinear_arith)
                    requires
                        self.den >= 1,
                        other.num >= 1,
                        d0 == (self.den as int) * (other.num as int),
                ;
            } else {
                assert(d0 <= -1) by (nonlinear_arith)
                    requires
                        self.den >= 1,
                        other.num <= -1,
                        d0 == (self.den as int) * (other.num as int),
                ;
            }
        }
        if d0 < 0 {
            n0 = -n0;
            d0 = -d0;
        }
        Rat::reduce(n0, d0)
    }

    /// Exact order test.
    pub fn le(&self, other: &Rat) -> (b: bool)
        ensures
            b == rat_le(self@, other@),
            self@.wf(),
            other@.wf(),
    {
        proof {
            use_type_invariant(self);
            use_type_invariant(other);
            lemma_mul_i64_range(self.num as int, other.den as int);
            lemma_mul_i64_range(other.num as int, self.den as int);
        }
        (self.num as i128) * (other.den as i128) <= (other.num as i128) * (self.den as i128)
    }

    /// Exact strict order test.
    pub fn lt(&self, other: &Rat) -> (b: bool)
        ensures
            b == rat_lt(self@, other@),
            self@.wf(),
            other@.wf(),
    {
        proof {
            use_type_invariant(self);
            use_type_invariant(other);
            lemma_mul_i64_range(self.num as int, other.den as int);
            lemma_mul_i64_range(other.num as int, self.den as int);
        }
        (self.num as i128) * (other.den as i128) < (other.num as i128) * (self.den as i128)
    }

    /// Exact value equality test (the reduced representations also agree).
    pub fn eqv(&self, other: &Rat) -> (b: bool)
        ensures
            b == rat_eq(self@, other@),
            self@.wf(),
            other@.wf(),
    {
        proof {
            use_type_invariant(self);
            use_type_invariant(other);
            lemma_mul_i64_range(self.num as int, other.den as int);
            lemma_mul_i64_range(other.num as int, self.den as int);
        }
        (self.num as i128) * (other.den as i128) == (other.num as i128) * (self.den as i128)
    }

    /// The smaller of two rationals.
    pub fn min(self, other: Rat) -> (r: Rat)
        ensures
            r@ == rat_min(self@, other@),
            self@.wf(),
            other@.wf(),
            r@.wf(),
    {
        if self.le(&other) {
            self
        } else {
            other
        }
    }
}

/// The finishing tolerance `1 / 10000`: a job whose remaining work is at most
/// this much counts as finished.
pub open spec fn rat_tolerance() -> SRat {
    SRat { n: 1, d: 10000 }
}

} // verus!
