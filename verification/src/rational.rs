//! Exact rational arithmetic.
//!
//! Every quantity in the ranking core is an exact rational number: a
//! numerator over a positive denominator, kept reduced by their greatest
//! common divisor.  Arithmetic is checked; an operation whose reduced
//! result no longer fits the machine word reports that instead of
//! silently losing precision.

use vstd::arithmetic::div_mod::{
    lemma_fundamental_div_mod, lemma_mod_multiples_basic, lemma_mod_self_0,
};
use vstd::prelude::*;

verus! {

/// Greatest common divisor by Euclid's recursion.
pub open spec fn gcd(a: nat, b: nat) -> nat
    decreases b,
{
    if b == 0 {
        a
    } else {
        gcd(b, a % b)
    }
}

/// Magnitude of an integer.
pub open spec fn iabs(n: int) -> nat {
    if n >= 0 {
        n as nat
    } else {
        (-n) as nat
    }
}

/// Does `x` fit the numerator field of a reduced rational?
pub open spec fn in_i64(x: int) -> bool {
    -(i64::MAX as int) <= x <= i64::MAX as int
}

/// A positive common divisor divides both of a fraction's parts.
pub proof fn lemma_gcd_divides(a: nat, b: nat)
    requires
        b > 0,
    ensures
        gcd(a, b) > 0,
        a % gcd(a, b) == 0,
        b % gcd(a, b) == 0,
    decreases b,
{
    let g = gcd(a, b);
    let r = a % b;
    assert(g == gcd(b, r));
    if r == 0 {
        assert(gcd(b, 0) == b);
        lemma_mod_self_0(b as int);
    } else {
        lemma_gcd_divides(b, r);
        lemma_fundamental_div_mod(a as int, b as int);
        lemma_fundamental_div_mod(b as int, g as int);
        lemma_fundamental_div_mod(r as int, g as int);
        let q = a as int / b as int;
        let kb = b as int / g as int;
        let kr = r as int / g as int;
        assert(a as int == g as int * (kb * q + kr)) by (nonlinear_arith)
            requires
                a as int == b as int * q + r as int,
                b as int == g as int * kb + (b as nat % g as nat) as int,
                r as int == g as int * kr + (r as nat % g as nat) as int,
                b as nat % g as nat == 0,
                r as nat % g as nat == 0,
        {
        }
        lemma_mod_multiples_basic(kb * q + kr, g as int);
    }
}

/// Canonical numerator of `n / d` (sign carried by the numerator).
pub open spec fn norm_num(n: int, d: int) -> int {
    let (n1, d1) = if d < 0 {
        (-n, -d)
    } else {
        (n, d)
    };
    let g = gcd(iabs(n1), d1 as nat) as int;
    if n1 >= 0 {
        iabs(n1) as int / g
    } else {
        -(iabs(n1) as int / g)
    }
}

/// Canonical (positive) denominator of `n / d`.
pub open spec fn norm_den(n: int, d: int) -> int {
    let (n1, d1) = if d < 0 {
        (-n, -d)
    } else {
        (n, d)
    };
    let g = gcd(iabs(n1), d1 as nat) as int;
    d1 / g
}

/// Does the canonical form of `n / d` fit the machine word?
pub open spec fn norm_fits(n: int, d: int) -> bool {
    in_i64(norm_num(n, d)) && norm_den(n, d) <= i64::MAX as int
}

/// The canonical form names the same rational: positive denominator and
/// cross-multiplication equality with the input fraction.
pub proof fn lemma_norm(n: int, d: int)
    requires
        d != 0,
    ensures
        norm_den(n, d) > 0,
        norm_num(n, d) * d == n * norm_den(n, d),
        n >= 0 && d > 0 ==> norm_num(n, d) >= 0,
        n > 0 && d > 0 ==> norm_num(n, d) > 0,
        n == 0 ==> norm_num(n, d) == 0,
{
    let (n1, d1) = if d < 0 {
        (-n, -d)
    } else {
        (n, d)
    };
    let a = iabs(n1);
    let g = gcd(a, d1 as nat);
    lemma_gcd_divides(a, d1 as nat);
    lemma_fundamental_div_mod(a as int, g as int);
    lemma_fundamental_div_mod(d1, g as int);
    let nn = a as int / g as int;
    let dd = d1 / g as int;
    assert(a as int == g as int * nn);
    assert(d1 == g as int * dd);
    assert(dd > 0) by (nonlinear_arith)
        requires
            d1 == g as int * dd,
            d1 > 0,
            g as int > 0,
            dd >= 0,
    {
    }
    assert(nn * d1 == a as int * dd) by (nonlinear_arith)
        requires
            a as int == g as int * nn,
            d1 == g as int * dd,
    {
    }
    if n1 > 0 {
        assert(nn > 0) by (nonlinear_arith)
            requires
                a as int == g as int * nn,
                a as int > 0,
                nn >= 0,
        {
        }
    }
    if n1 >= 0 {
        assert(norm_num(n, d) == nn);
        assert(nn * d1 == n1 * dd);
    } else {
        assert(norm_num(n, d) == -nn);
        assert((-nn) * d1 == n1 * dd) by (nonlinear_arith)
            requires
                nn * d1 == a as int * dd,
                a as int == -n1,
        {
        }
    }
    if d < 0 {
        assert(norm_num(n, d) * d1 == n1 * dd);
        assert(norm_num(n, d) * d == n * dd) by (nonlinear_arith)
            requires
                norm_num(n, d) * d1 == n1 * dd,
                n1 == -n,
                d1 == -d,
        {
        }
    }
    if n == 0 {
        assert(a == 0);
        assert(nn == 0) by (nonlinear_arith)
            requires
                0 == g as int * nn,
                g as int > 0,
                nn >= 0,
        {
        }
    }
}

/// The reduced rational with the canonical parts of `n / d`;
/// meaningful when the canonical form fits the machine word.
pub closed spec fn norm_rat(n: int, d: int) -> Rat {
    Rat { num: norm_num(n, d) as i64, den: norm_den(n, d) as i64 }
}

/// When the canonical form of `n / d` fits, `norm_rat` carries exactly
/// its parts and names the same value.
pub proof fn lemma_norm_rat(n: int, d: int)
    requires
        d != 0,
        norm_fits(n, d),
    ensures
        norm_rat(n, d).n() == norm_num(n, d),
        norm_rat(n, d).d() == norm_den(n, d),
        norm_rat(n, d).wf(),
        rat_eq_frac(norm_rat(n, d), n, d),
{
    lemma_norm(n, d);
}

/// Two rationals with the same numerator and denominator are the same.
pub proof fn lemma_rat_ext(a: Rat, b: Rat)
    requires
        a.n() == b.n(),
        a.d() == b.d(),
    ensures
        a == b,
{
}

/// The negation of a rational, field for field.
pub closed spec fn spec_neg(r: Rat) -> Rat {
    Rat { num: (-(r.num as int)) as i64, den: r.den }
}

/// The negation flips the numerator and keeps the denominator.
pub proof fn lemma_spec_neg(r: Rat)
    requires
        r.wf(),
    ensures
        spec_neg(r).n() == -r.n(),
        spec_neg(r).d() == r.d(),
        spec_neg(r).wf(),
{
}

/// The canonical forms of zero and one over a unit denominator.
pub proof fn lemma_norm_unit_forms()
    ensures
        norm_rat(0, 1).n() == 0 && norm_rat(0, 1).d() == 1,
        norm_rat(1, 1).n() == 1 && norm_rat(1, 1).d() == 1,
{
    lemma_norm(0, 1);
    lemma_norm_fits_small(0, 1);
    lemma_norm(1, 1);
    lemma_norm_fits_small(1, 1);
    assert(gcd(0, 1) == gcd(1, 0nat % 1nat));
    assert(0nat % 1nat == 0);
    assert(gcd(1, 0) == 1);
    assert(gcd(1, 1) == gcd(1, 1nat % 1nat));
    assert(1nat % 1nat == 0);
    assert(iabs(0) == 0 && iabs(1) == 1);
}

/// A canonical form that fits the machine word is bounded like one.
pub proof fn lemma_norm_in_range(n: int, d: int)
    requires
        d != 0,
        norm_fits(n, d),
    ensures
        in_i64(norm_num(n, d)),
        0 < norm_den(n, d) <= i64::MAX as int,
{
    lemma_norm(n, d);
}

/// A fraction already within the machine word stays there once reduced.
pub proof fn lemma_norm_fits_small(n: int, d: int)
    requires
        d != 0,
        in_i64(n),
        in_i64(d),
    ensures
        norm_fits(n, d),
{
    let (n1, d1) = if d < 0 {
        (-n, -d)
    } else {
        (n, d)
    };
    let a = iabs(n1);
    let g = gcd(a, d1 as nat);
    lemma_gcd_divides(a, d1 as nat);
    lemma_fundamental_div_mod(a as int, g as int);
    lemma_fundamental_div_mod(d1, g as int);
    let nn = a as int / g as int;
    let dd = d1 / g as int;
    assert(nn <= a as int) by (nonlinear_arith)
        requires
            a as int == g as int * nn,
            g as int >= 1,
            nn >= 0,
    {
    }
    assert(dd <= d1) by (nonlinear_arith)
        requires
            d1 == g as int * dd,
            g as int >= 1,
            dd >= 0,
    {
    }
}

/// An exact rational number: numerator over a positive denominator, kept
/// reduced so that equal values have equal representations.
#[derive(Clone, Copy, Debug, PartialEq, Eq, Structural)]
pub struct Rat {
    num: i64,
    den: i64,
}

/// Value-level equality of two rationals, by cross multiplication.
pub open spec fn rat_eq(a: Rat, b: Rat) -> bool {
    a.n() * b.d() == b.n() * a.d()
}

/// Does `v` name the value of the fraction `n / d`?
pub open spec fn rat_eq_frac(v: Rat, n: int, d: int) -> bool {
    v.n() * d == n * v.d()
}

/// Numerator of the exact sum `a + b` over the common denominator.
pub open spec fn add_n(a: Rat, b: Rat) -> int {
    a.n() * b.d() + b.n() * a.d()
}

/// Common denominator of the exact sum `a + b`.
pub open spec fn add_d(a: Rat, b: Rat) -> int {
    a.d() * b.d()
}

/// Numerator of the exact product `a * b`.
pub open spec fn mul_n(a: Rat, b: Rat) -> int {
    a.n() * b.n()
}

/// Denominator of the exact product `a * b`.
pub open spec fn mul_d(a: Rat, b: Rat) -> int {
    a.d() * b.d()
}

/// Value-level order on rationals with positive denominators.
pub open spec fn rat_le(a: Rat, b: Rat) -> bool {
    a.n() * b.d() <= b.n() * a.d()
}

/// Value-level strict order on rationals with positive denominators.
pub open spec fn rat_lt(a: Rat, b: Rat) -> bool {
    a.n() * b.d() < b.n() * a.d()
}

/// The value order is transitive, strictly so when a link is strict.
pub proof fn lemma_rat_order_trans(a: Rat, b: Rat, c: Rat)
    requires
        a.d() > 0,
        b.d() > 0,
        c.d() > 0,
        rat_le(a, b),
        rat_le(b, c),
    ensures
        rat_le(a, c),
        rat_lt(a, b) || rat_lt(b, c) ==> rat_lt(a, c),
{
    let an = a.n();
    let ad = a.d();
    let bn = b.n();
    let bd = b.d();
    let cn = c.n();
    let cd = c.d();
    assert((an * bd) * cd <= (bn * ad) * cd) by (nonlinear_arith)
        requires
            an * bd <= bn * ad,
            cd > 0,
    {
    }
    assert((bn * cd) * ad <= (cn * bd) * ad) by (nonlinear_arith)
        requires
            bn * cd <= cn * bd,
            ad > 0,
    {
    }
    assert((bn * ad) * cd == (bn * cd) * ad) by (nonlinear_arith) {
    }
    assert((an * bd) * cd == bd * (an * cd)) by (nonlinear_arith) {
    }
    assert((cn * bd) * ad == bd * (cn * ad)) by (nonlinear_arith) {
    }
    assert(an * cd <= cn * ad) by (nonlinear_arith)
        requires
            bd * (an * cd) <= bd * (cn * ad),
            bd > 0,
    {
    }
    if rat_lt(a, b) {
        assert((an * bd) * cd < (bn * ad) * cd) by (nonlinear_arith)
            requires
                an * bd < bn * ad,
                cd > 0,
        {
        }
        assert(an * cd < cn * ad) by (nonlinear_arith)
            requires
                bd * (an * cd) < bd * (cn * ad),
                bd > 0,
        {
        }
    } else {
        if rat_lt(b, c) {
            assert((bn * cd) * ad < (cn * bd) * ad) by (nonlinear_arith)
                requires
                    bn * cd < cn * bd,
                    ad > 0,
            {
            }
            assert(an * cd < cn * ad) by (nonlinear_arith)
                requires
                    bd * (an * cd) < bd * (cn * ad),
                    bd > 0,
            {
            }
        }
    }
}

impl Rat {
    /// The numerator, as a mathematical integer.
    pub closed spec fn n(self) -> int {
        self.num as int
    }

    /// The denominator, as a mathematical integer.
    pub closed spec fn d(self) -> int {
        self.den as int
    }

    /// Well-formed: positive denominator, numerator safely negatable.
    pub open spec fn wf(self) -> bool {
        self.d() > 0 && self.n() > i64::MIN as int
    }

    /// The rational zero.
    pub fn zero() -> (r: Rat)
        ensures
            r.wf(),
            r == norm_rat(0, 1),
            r.n() == 0,
            r.d() == 1,
    {
        proof {
            lemma_norm_unit_forms();
        }
        Rat { num: 0, den: 1 }
    }

    /// The rational one.
    pub fn one() -> (r: Rat)
        ensures
            r.wf(),
            r == norm_rat(1, 1),
            r.n() == 1,
            r.d() == 1,
    {
        proof {
            lemma_norm_unit_forms();
        }
        Rat { num: 1, den: 1 }
    }

    /// The integer `i` as a rational.
    pub fn from_int(i: i64) -> (r: Rat)
        requires
            i > i64::MIN,
        ensures
            r.wf(),
            r.n() == i,
            r.d() == 1,
    {
        Rat { num: i, den: 1 }
    }

    /// Builds the reduced rational `num / den`; `None` exactly when
    /// `den == 0` or the reduced parts overflow the machine word.
    pub fn new(num: i64, den: i64) -> (r: Option<Rat>)
        ensures
            den == 0 ==> r is None,
            den != 0 ==> (r is Some <==> norm_fits(num as int, den as int)),
            r matches Some(v) ==> v.wf() && den != 0 && v == norm_rat(num as int, den as int)
                && v.n() * den == num * v.d(),
            den != 0 && den > i64::MIN && num > i64::MIN ==> r is Some,
    {
        if den == 0 {
            None
        } else {
            proof {
                if num > i64::MIN && den > i64::MIN {
                    lemma_norm_fits_small(num as int, den as int);
                }
            }
            Rat::make(num as i128, den as i128)
        }
    }

    /// The numerator (reduced form, sign carried here).
    pub fn numer(&self) -> (r: i64)
        ensures
            r as int == self.n(),
    {
        self.num
    }

    /// The (positive) denominator of the reduced form.
    pub fn denom(&self) -> (r: i64)
        ensures
            r as int == self.d(),
    {
        self.den
    }

    /// Is this value exactly zero?
    pub fn is_zero(&self) -> (r: bool)
        ensures
            r == (self.n() == 0),
    {
        self.num == 0
    }

    /// Is this value exactly one?
    pub fn is_one(&self) -> (r: bool)
        ensures
            r == (self.n() == self.d()),
    {
        self.num == self.den
    }

    /// Is this value non-negative?
    pub fn is_nonneg(&self) -> (r: bool)
        ensures
            r == (self.n() >= 0),
    {
        self.num >= 0
    }

    /// Is this value strictly positive?
    pub fn is_pos(&self) -> (r: bool)
        ensures
            r == (self.n() > 0),
    {
        self.num > 0
    }

    /// Value-level equality test.
    pub fn same_value(&self, other: &Rat) -> (r: bool)
        requires
            self.wf(),
            other.wf(),
        ensures
            r == rat_eq(*self, *other),
    {
        proof {
            lemma_i64_prod_bound(self.n(), other.d());
            lemma_i64_prod_bound(other.n(), self.d());
        }
        (self.num as i128) * (other.den as i128) == (other.num as i128) * (self.den as i128)
    }

    /// Value-level `<=` test.
    pub fn le(&self, other: &Rat) -> (r: bool)
        requires
            self.wf(),
            other.wf(),
        ensures
            r == rat_le(*self, *other),
    {
        proof {
            lemma_i64_prod_bound(self.n(), other.d());
            lemma_i64_prod_bound(other.n(), self.d());
        }
        (self.num as i128) * (other.den as i128) <= (other.num as i128) * (self.den as i128)
    }

    /// Value-level `<` test.
    pub fn lt(&self, other: &Rat) -> (r: bool)
        requires
            self.wf(),
            other.wf(),
        ensures
            r == rat_lt(*self, *other),
    {
        proof {
            lemma_i64_prod_bound(self.n(), other.d());
            lemma_i64_prod_bound(other.n(), self.d());
        }
        (self.num as i128) * (other.den as i128) < (other.num as i128) * (self.den as i128)
    }

    /// Exact negation.
    pub fn neg(&self) -> (r: Rat)
        requires
            self.wf(),
        ensures
            r.wf(),
            r == spec_neg(*self),
            r.n() == -self.n(),
            r.d() == self.d(),
    {
        Rat { num: -self.num, den: self.den }
    }

    /// Checked exact addition; `None` exactly when the reduced sum
    /// overflows the machine word.
    pub fn checked_add(&self, other: &Rat) -> (r: Option<Rat>)
        requires
            self.wf(),
            other.wf(),
        ensures
            r is Some <==> norm_fits(add_n(*self, *other), add_d(*self, *other)),
            r matches Some(v) ==> {
                &&& v.wf()
                &&& v == norm_rat(add_n(*self, *other), add_d(*self, *other))
                &&& v.n() == norm_num(add_n(*self, *other), add_d(*self, *other))
                &&& v.d() == norm_den(add_n(*self, *other), add_d(*self, *other))
                &&& rat_eq_frac(v, add_n(*self, *other), add_d(*self, *other))
            },
    {
        proof {
            lemma_i64_prod_bound(self.n(), other.d());
            lemma_i64_prod_bound(other.n(), self.d());
            lemma_i64_prod_bound(self.d(), other.d());
            lemma_pos_prod(self.d(), other.d());
        }
        let n: i128 = (self.num as i128) * (other.den as i128) + (other.num as i128)
            * (self.den as i128);
        let d: i128 = (self.den as i128) * (other.den as i128);
        let r = Rat::make(n, d);
        proof {
            if r is Some {
                lemma_norm(n as int, d as int);
            }
        }
        r
    }

    /// Checked exact subtraction; `None` exactly when the reduced
    /// difference overflows the machine word.
    pub fn checked_sub(&self, other: &Rat) -> (r: Option<Rat>)
        requires
            self.wf(),
            other.wf(),
        ensures
            r is Some <==> norm_fits(
                self.n() * other.d() - other.n() * self.d(),
                add_d(*self, *other),
            ),
            r matches Some(v) ==> {
                &&& v.wf()
                &&& v == norm_rat(
                    self.n() * other.d() - other.n() * self.d(),
                    add_d(*self, *other),
                )
                &&& rat_eq_frac(
                    v,
                    self.n() * other.d() - other.n() * self.d(),
                    add_d(*self, *other),
                )
            },
    {
        let nb = other.neg();
        let r = self.checked_add(&nb);
        proof {
            assert((-other.n()) * self.d() == -(other.n() * self.d())) by (nonlinear_arith) {
            }
        }
        r
    }

    /// Checked exact multiplication; `None` exactly when the reduced
    /// product overflows the machine word.
    pub fn checked_mul(&self, other: &Rat) -> (r: Option<Rat>)
        requires
            self.wf(),
            other.wf(),
        ensures
            r is Some <==> norm_fits(mul_n(*self, *other), mul_d(*self, *other)),
            r matches Some(v) ==> {
                &&& v.wf()
                &&& v == norm_rat(mul_n(*self, *other), mul_d(*self, *other))
                &&& v.n() == norm_num(mul_n(*self, *other), mul_d(*self, *other))
                &&& v.d() == norm_den(mul_n(*self, *other), mul_d(*self, *other))
                &&& rat_eq_frac(v, mul_n(*self, *other), mul_d(*self, *other))
            },
    {
        proof {
            lemma_i64_prod_bound(self.n(), other.n());
            lemma_i64_prod_bound(self.d(), other.d());
            lemma_pos_prod(self.d(), other.d());
        }
        let n: i128 = (self.num as i128) * (other.num as i128);
        let d: i128 = (self.den as i128) * (other.den as i128);
        let r = Rat::make(n, d);
        proof {
            if r is Some {
                lemma_norm(n as int, d as int);
            }
        }
        r
    }

    /// Checked exact division by a nonzero rational; `None` exactly when
    /// the reduced quotient overflows the machine word.
    pub fn checked_div(&self, other: &Rat) -> (r: Option<Rat>)
        requires
            self.wf(),
            other.wf(),
            other.n() != 0,
        ensures
            r is Some <==> norm_fits(self.n() * other.d(), self.d() * other.n()),
            r matches Some(v) ==> {
                &&& v.wf()
                &&& v == norm_rat(self.n() * other.d(), self.d() * other.n())
                &&& rat_eq_frac(v, self.n() * other.d(), self.d() * other.n())
            },
    {
        proof {
            lemma_i64_prod_bound(self.n(), other.d());
            lemma_i64_prod_bound(self.d(), other.n());
            lemma_nonzero_prod(self.d(), other.n());
        }
        let n: i128 = (self.num as i128) * (other.den as i128);
        let d: i128 = (self.den as i128) * (other.num as i128);
        let r = Rat::make(n, d);
        proof {
            if r is Some {
                lemma_norm(n as int, d as int);
            }
        }
        r
    }

    /// Builds the reduced form of `n0 / d0`.
    fn make(n0: i128, d0: i128) -> (r: Option<Rat>)
        requires
            d0 != 0,
            n0 > i128::MIN,
            d0 > i128::MIN,
        ensures
            r is Some <==> norm_fits(n0 as int, d0 as int),
            r matches Some(v) ==> {
                &&& v.wf()
                &&& v == norm_rat(n0 as int, d0 as int)
                &&& v.n() == norm_num(n0 as int, d0 as int)
                &&& v.d() == norm_den(n0 as int, d0 as int)
                &&& v.n() * d0 == n0 * v.d()
            },
    {
        let (n1, d1): (i128, i128) = if d0 < 0 {
            (-n0, -d0)
        } else {
            (n0, d0)
        };
        let na: u128 = if n1 < 0 {
            (-n1) as u128
        } else {
            n1 as u128
        };
        proof {
            assert(na as nat == iabs(n1 as int));
            lemma_gcd_divides(na as nat, d1 as nat);
        }
        let g: u128 = gcd_u128(na, d1 as u128);
        let nn: u128 = na / g;
        let dd: u128 = (d1 as u128) / g;
        proof {
            lemma_fundamental_div_mod(na as int, g as int);
            lemma_fundamental_div_mod(d1 as int, g as int);
            lemma_norm(n0 as int, d0 as int);
        }
        if nn <= i64::MAX as u128 && dd <= i64::MAX as u128 {
            let num: i64 = if n1 < 0 {
                -(nn as i64)
            } else {
                nn as i64
            };
            let den: i64 = dd as i64;
            Some(Rat { num, den })
        } else {
            None
        }
    }
}

/// Euclid's algorithm on machine words.
fn gcd_u128(a: u128, b: u128) -> (g: u128)
    ensures
        g as nat == gcd(a as nat, b as nat),
    decreases b,
{
    if b == 0 {
        a
    } else {
        gcd_u128(b, a % b)
    }
}

/// Products of word-sized factors fit the double-wide word.
pub proof fn lemma_i64_prod_bound(x: int, y: int)
    requires
        -(i64::MAX as int) <= x <= i64::MAX as int,
        -(i64::MAX as int) <= y <= i64::MAX as int,
    ensures
        -(i64::MAX as int) * (i64::MAX as int) <= x * y <= (i64::MAX as int) * (i64::MAX as int),
{
    assert(-(i64::MAX as int) * (i64::MAX as int) <= x * y <= (i64::MAX as int) * (
    i64::MAX as int)) by (nonlinear_arith)
        requires
            -(i64::MAX as int) <= x <= i64::MAX as int,
            -(i64::MAX as int) <= y <= i64::MAX as int,
    {
    }
}

/// A product of positive factors is positive.
pub proof fn lemma_pos_prod(x: int, y: int)
    requires
        x > 0,
        y > 0,
    ensures
        x * y > 0,
{
    assert(x * y > 0) by (nonlinear_arith)
        requires
            x > 0,
            y > 0,
    {
    }
}

/// A product of nonzero factors is nonzero.
pub proof fn lemma_nonzero_prod(x: int, y: int)
    requires
        x != 0,
        y != 0,
    ensures
        x * y != 0,
{
    assert(x * y != 0) by (nonlinear_arith)
        requires
            x != 0,
            y != 0,
    {
    }
}

/// Cross-multiplication equality is transitive across a well-formed
/// middle value.
pub proof fn lemma_rat_eq_trans(a: Rat, b: Rat, c: Rat)
    requires
        b.d() > 0,
        rat_eq(a, b),
        rat_eq(b, c),
    ensures
        rat_eq(a, c),
{
    assert(a.n() * c.d() == c.n() * a.d()) by (nonlinear_arith)
        requires
            a.n() * b.d() == b.n() * a.d(),
            b.n() * c.d() == c.n() * b.d(),
            b.d() > 0,
    {
    }
}

/// One value named by two fractions makes the fractions cross-equal.
pub proof fn lemma_frac_chain(v: Rat, n1: int, d1: int, n2: int, d2: int)
    requires
        v.d() > 0,
        v.n() * d1 == n1 * v.d(),
        v.n() * d2 == n2 * v.d(),
    ensures
        n1 * d2 == n2 * d1,
{
    assert((v.n() * d1) * d2 == (n1 * v.d()) * d2) by (nonlinear_arith)
        requires
            v.n() * d1 == n1 * v.d(),
    {
    }
    assert((v.n() * d2) * d1 == (n2 * v.d()) * d1) by (nonlinear_arith)
        requires
            v.n() * d2 == n2 * v.d(),
    {
    }
    assert((v.n() * d1) * d2 == (v.n() * d2) * d1) by (nonlinear_arith) {
    }
    assert((n1 * v.d()) * d2 == v.d() * (n1 * d2)) by (nonlinear_arith) {
    }
    assert((n2 * v.d()) * d1 == v.d() * (n2 * d1)) by (nonlinear_arith) {
    }
    assert(n1 * d2 == n2 * d1) by (nonlinear_arith)
        requires
            v.d() * (n1 * d2) == v.d() * (n2 * d1),
            v.d() > 0,
    {
    }
}

/// A value naming one fraction also names any cross-equal fraction.
pub proof fn lemma_frac_to_frac(v: Rat, sn: int, sd: int, dn: int, dd: int)
    requires
        sd > 0,
        v.n() * sd == sn * v.d(),
        sn * dd == dn * sd,
    ensures
        v.n() * dd == dn * v.d(),
{
    assert((v.n() * sd) * dd == (sn * dd) * v.d()) by (nonlinear_arith)
        requires
            v.n() * sd == sn * v.d(),
    {
    }
    assert((sn * dd) * v.d() == (dn * sd) * v.d());
    assert((v.n() * sd) * dd == sd * (v.n() * dd)) by (nonlinear_arith) {
    }
    assert((dn * sd) * v.d() == sd * (dn * v.d())) by (nonlinear_arith) {
    }
    assert(v.n() * dd == dn * v.d()) by (nonlinear_arith)
        requires
            sd * (v.n() * dd) == sd * (dn * v.d()),
            sd > 0,
    {
    }
}

} // verus!
