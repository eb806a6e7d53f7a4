//! Euclidean division and remainder.

use vstd::prelude::*;

verus! {

/// Division whose remainder is never negative.
pub trait Euc: Sized {
    /// The pairs for which quotient and remainder exist in the type.
    spec fn euc_defined(self, rhs: Self) -> bool;

    /// The remainder `r` with `0 <= r < |rhs|`.
    spec fn mod_euc_spec(self, rhs: Self) -> Self;

    /// The quotient `q` with `self == q * rhs + r`.
    spec fn div_euc_spec(self, rhs: Self) -> Self;

    fn mod_euc(self, rhs: Self) -> (r: Self)
        requires
            self.euc_defined(rhs),
        ensures
            r == self.mod_euc_spec(rhs),
    ;

    fn div_euc(self, rhs: Self) -> (q: Self)
        requires
            self.euc_defined(rhs),
        ensures
            q == self.div_euc_spec(rhs),
    ;
}

/// The quotient of the division that rounds toward zero.
pub open spec fn trunc_div(x: int, d: int) -> int {
    if x == 0 {
        0
    } else if x > 0 && d > 0 {
        x / d
    } else if x < 0 && d < 0 {
        (x * -1) / (d * -1)
    } else if x < 0 {
        ((x * -1) / d) * -1
    } else {
        (x / (d * -1)) * -1
    }
}

/// The remainder of the division that rounds toward zero; it has the sign
/// of the dividend.
pub open spec fn trunc_rem(x: int, d: int) -> int {
    if x == 0 {
        0
    } else if x > 0 && d > 0 {
        x % d
    } else if x < 0 && d < 0 {
        ((x * -1) % (d * -1)) * -1
    } else if x < 0 {
        ((x * -1) % d) * -1
    } else {
        x % (d * -1)
    }
}

impl Euc for i32 {
    open spec fn euc_defined(self, rhs: Self) -> bool {
        rhs != 0 && !(self == i32::MIN && rhs == -1)
    }

    open spec fn mod_euc_spec(self, rhs: Self) -> Self {
        ((self as int) % (rhs as int)) as i32
    }

    open spec fn div_euc_spec(self, rhs: Self) -> Self {
        ((self as int) / (rhs as int)) as i32
    }

    #[inline]
    fn div_euc(self, rhs: Self) -> (q: Self) {
        proof {
            lemma_trunc_to_euclid(self as int, rhs as int);
            lemma_quotient_fits_i32(self, rhs);
        }
        match (self.checked_div(rhs), self.checked_rem(rhs)) {
            (Some(q), Some(r)) => {
                if r < 0 {
                    if rhs > 0 {
                        q - 1
                    } else {
                        q + 1
                    }
                } else {
                    q
                }
            },
            _ => 0,
        }
    }

    #[inline]
    fn mod_euc(self, rhs: Self) -> (r: Self) {
        proof {
            lemma_trunc_to_euclid(self as int, rhs as int);
            lemma_quotient_fits_i32(self, rhs);
        }
        match self.checked_rem(rhs) {
            Some(r) => {
                if r < 0 {
                    if rhs < 0 {
                        r - rhs
                    } else {
                        r + rhs
                    }
                } else {
                    r
                }
            },
            None => 0,
        }
    }
}

/// On `i32` the two results are the Euclidean quotient and remainder: they
/// rebuild the dividend, and the remainder lies in `0 .. |rhs|`.
pub proof fn lemma_euc_i32(a: i32, b: i32)
    requires
        a.euc_defined(b),
    ensures
        a == a.div_euc_spec(b) * b + a.mod_euc_spec(b),
        0 <= a.mod_euc_spec(b),
        b > 0 ==> a.mod_euc_spec(b) < b,
        b < 0 ==> a.mod_euc_spec(b) < -b,
{
    lemma_quotient_fits_i32(a, b);
}

/// The Euclidean quotient and remainder of two `i32` values fit in `i32`,
/// but for the one quotient that does not exist in the type.
pub proof fn lemma_quotient_fits_i32(a: i32, b: i32)
    requires
        a.euc_defined(b),
    ensures
        i32::MIN <= (a as int) / (b as int) <= i32::MAX,
        0 <= (a as int) % (b as int) <= i32::MAX,
        a == ((a as int) / (b as int)) * b + (a as int) % (b as int),
        b > 0 ==> (a as int) % (b as int) < b,
        b < 0 ==> (a as int) % (b as int) < -b,
{
    let x = a as int;
    let d = b as int;
    lemma_euclid(x, d);
    let q = x / d;
    let r = x % d;
    assert(q <= 0x7fff_ffff) by (nonlinear_arith)
        requires
            x == q * d + r,
            0 <= r,
            d > 0 ==> r < d,
            d < 0 ==> r < -d,
            d != 0,
            -0x8000_0000 <= x <= 0x7fff_ffff,
            -0x8000_0000 <= d <= 0x7fff_ffff,
            !(x == -0x8000_0000 && d == -1),
            x >= 0 ==> -x <= q <= x,
            x < 0 ==> x <= q <= -x,
    ;
}

/// Over the integers: the quotient and remainder of Euclidean division
/// rebuild the dividend, and the quotient is no larger than the dividend.
pub proof fn lemma_euclid(x: int, d: int)
    requires
        d != 0,
    ensures
        x == (x / d) * d + x % d,
        0 <= x % d,
        d > 0 ==> x % d < d,
        d < 0 ==> x % d < -d,
        x >= 0 ==> -x <= x / d <= x,
        x < 0 ==> x <= x / d <= -x,
{
    vstd::arithmetic::div_mod::lemma_fundamental_div_mod(x, d);
    let q = x / d;
    let r = x % d;
    assert(0 <= r && (d > 0 ==> r < d) && (d < 0 ==> r < -d));
    assert(x == q * d + r) by (nonlinear_arith)
        requires
            x == d * q + r,
    ;
    assert((x >= 0 ==> -x <= q <= x) && (x < 0 ==> x <= q <= -x)) by (nonlinear_arith)
        requires
            x == q * d + r,
            d != 0,
            0 <= r,
            d > 0 ==> r < d,
            d < 0 ==> r < -d,
    ;
}

/// Quotient and remainder are determined by the equation and the bound on
/// the remainder.
pub proof fn lemma_euclid_unique(x: int, d: int, q: int, r: int)
    requires
        d != 0,
        x == q * d + r,
        0 <= r,
        d > 0 ==> r < d,
        d < 0 ==> r < -d,
    ensures
        q == x / d,
        r == x % d,
{
    lemma_euclid(x, d);
    let q2 = x / d;
    let r2 = x % d;
    assert(q == q2) by (nonlinear_arith)
        requires
            d != 0,
            x == q * d + r,
            x == q2 * d + r2,
            0 <= r,
            0 <= r2,
            d > 0 ==> r < d && r2 < d,
            d < 0 ==> r < -d && r2 < -d,
    ;
}

/// How the division that rounds toward zero relates to the Euclidean one:
/// they agree unless the truncated remainder is negative, and then they
/// differ by one step of the divisor.
pub proof fn lemma_trunc_to_euclid(x: int, d: int)
    requires
        d != 0,
    ensures
        x == trunc_div(x, d) * d + trunc_rem(x, d),
        trunc_rem(x, d) >= 0 ==> x / d == trunc_div(x, d) && x % d == trunc_rem(x, d),
        trunc_rem(x, d) < 0 && d > 0 ==> x / d == trunc_div(x, d) - 1 && x % d == trunc_rem(x, d)
            + d,
        trunc_rem(x, d) < 0 && d < 0 ==> x / d == trunc_div(x, d) + 1 && x % d == trunc_rem(x, d)
            - d,
{
    let ax = if x < 0 { x * -1 } else { x };
    let ad = if d < 0 { d * -1 } else { d };
    lemma_euclid(ax, ad);
    let q0 = ax / ad;
    let r0 = ax % ad;
    let tq = trunc_div(x, d);
    let tr = trunc_rem(x, d);
    assert(x == 0 ==> q0 == 0 && r0 == 0) by {
        if x == 0 {
            lemma_euclid_unique(0, ad, 0, 0);
        }
    }
    assert(tq == (if (x < 0) == (d < 0) { q0 } else { -q0 }));
    assert(tr == (if x < 0 { -r0 } else { r0 }));
    assert(x == tq * d + tr) by (nonlinear_arith)
        requires
            ax == q0 * ad + r0,
            ax == (if x < 0 { -x } else { x }),
            ad == (if d < 0 { -d } else { d }),
            tq == (if (x < 0) == (d < 0) { q0 } else { -q0 }),
            tr == (if x < 0 { -r0 } else { r0 }),
    ;
    if tr >= 0 {
        lemma_euclid_unique(x, d, tq, tr);
    } else if d > 0 {
        assert(x == (tq - 1) * d + (tr + d)) by (nonlinear_arith)
            requires
                x == tq * d + tr,
        ;
        lemma_euclid_unique(x, d, tq - 1, tr + d);
    } else {
        assert(x == (tq + 1) * d + (tr - d)) by (nonlinear_arith)
            requires
                x == tq * d + tr,
        ;
        lemma_euclid_unique(x, d, tq + 1, tr - d);
    }
}

} // verus!
