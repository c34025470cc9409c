//! Vectors of exact rationals, with validated probability kinds.
//!
//! A `Vector` is a general finite sequence of rationals.  A
//! `Probability` vector is one whose entries are non-negative and sum to
//! exactly one; a `ProbabilityRegular` vector additionally has every
//! entry strictly positive.  The validated kinds are produced only by
//! their checking conversions, so an invalid tagged value cannot be
//! constructed through the public interface.

use crate::rational::{
    add_d, add_n, in_i64, lemma_norm, lemma_norm_in_range, lemma_norm_rat, lemma_pos_prod, mul_d,
    mul_n, norm_den, norm_fits, norm_num, norm_rat, rat_eq_frac, Rat,
};
use crate::RankError;
use vstd::prelude::*;

verus! {

/// Every entry of the sequence is a well-formed rational.
pub open spec fn vec_wf(s: Seq<Rat>) -> bool {
    forall|i: int| 0 <= i < s.len() ==> s[i].wf()
}

/// Numerator of the exact sum of a sequence of rationals, over the
/// common denominator `sum_d`.
pub open spec fn sum_n(s: Seq<Rat>) -> int
    decreases s.len(),
{
    if s.len() == 0 {
        0
    } else {
        sum_n(s.drop_last()) * s.last().d() + s.last().n() * sum_d(s.drop_last())
    }
}

/// Common denominator of the exact sum of a sequence of rationals.
pub open spec fn sum_d(s: Seq<Rat>) -> int
    decreases s.len(),
{
    if s.len() == 0 {
        1
    } else {
        sum_d(s.drop_last()) * s.last().d()
    }
}

/// The entries are non-negative and sum to exactly one.
pub open spec fn is_prob_dist(s: Seq<Rat>) -> bool {
    &&& forall|i: int| 0 <= i < s.len() ==> s[i].n() >= 0
    &&& sum_n(s) == sum_d(s)
}

/// The reduced running sum of the first `i` entries, exactly as the
/// checked fold computes it: numerator and denominator.
pub open spec fn sum_state(s: Seq<Rat>, i: int) -> (int, int)
    decreases i,
{
    if i <= 0 {
        (0int, 1int)
    } else {
        let prev = sum_state(s, i - 1);
        let x = s[i - 1];
        (
            norm_num(prev.0 * x.d() + x.n() * prev.1, prev.1 * x.d()),
            norm_den(prev.0 * x.d() + x.n() * prev.1, prev.1 * x.d()),
        )
    }
}

/// Does every step of the checked fold of the first `i` entries fit the
/// machine word?
pub open spec fn sum_ok(s: Seq<Rat>, i: int) -> bool
    decreases i,
{
    if i <= 0 {
        true
    } else {
        let prev = sum_state(s, i - 1);
        let x = s[i - 1];
        sum_ok(s, i - 1) && norm_fits(prev.0 * x.d() + x.n() * prev.1, prev.1 * x.d())
    }
}

/// The whole checked sum of the sequence fits the machine word.
pub open spec fn sum_fits(s: Seq<Rat>) -> bool {
    sum_ok(s, s.len() as int)
}

/// A prefix of a fitting fold fits.
proof fn lemma_sum_ok_mono(s: Seq<Rat>, j: int, k: int)
    requires
        0 <= j <= k,
        sum_ok(s, k),
    ensures
        sum_ok(s, j),
    decreases k,
{
    if j < k {
        lemma_sum_ok_mono(s, j, k - 1);
    }
}

/// The running reduced sum names the exact value of the prefix sum.
#[verifier::rlimit(50)]
proof fn lemma_sum_state(s: Seq<Rat>, i: int)
    requires
        0 <= i <= s.len(),
        vec_wf(s),
        sum_ok(s, i),
    ensures
        sum_state(s, i).1 > 0,
        in_i64(sum_state(s, i).0),
        sum_d(s.take(i)) > 0,
        sum_state(s, i).0 * sum_d(s.take(i)) == sum_n(s.take(i)) * sum_state(s, i).1,
    decreases i,
{
    if i == 0 {
        assert(s.take(0) =~= Seq::<Rat>::empty());
    } else {
        lemma_sum_ok_mono(s, i - 1, i);
        lemma_sum_state(s, i - 1);
        let prev = sum_state(s, i - 1);
        let x = s[i - 1];
        let t = s.take(i);
        assert(t.drop_last() =~= s.take(i - 1));
        assert(t.last() == x);
        let sn = sum_n(s.take(i - 1));
        let sd = sum_d(s.take(i - 1));
        assert(sum_n(t) == sn * x.d() + x.n() * sd);
        assert(sum_d(t) == sd * x.d());
        lemma_pos_prod(prev.1, x.d());
        lemma_pos_prod(sd, x.d());
        lemma_norm(prev.0 * x.d() + x.n() * prev.1, prev.1 * x.d());
        lemma_norm_in_range(prev.0 * x.d() + x.n() * prev.1, prev.1 * x.d());
        let nn = sum_state(s, i).0;
        let nd = sum_state(s, i).1;
        let p0 = prev.0;
        let p1 = prev.1;
        let xn = x.n();
        let xd = x.d();
        assert(p1 * (nn * (sd * xd)) == ((p0 * xd + xn * p1) * nd) * sd) by (nonlinear_arith)
            requires
                nn * (p1 * xd) == (p0 * xd + xn * p1) * nd,
        {
        }
        assert(((p0 * xd + xn * p1) * nd) * sd == (p0 * sd) * (xd * nd) + (xn * p1) * (sd * nd))
            by (nonlinear_arith) {
        }
        assert((sn * xd + xn * sd) * nd == (sn * xd) * nd + (xn * sd) * nd) by (nonlinear_arith) {
        }
        assert(p1 * ((sn * xd + xn * sd) * nd) == p1 * ((sn * xd) * nd) + p1 * ((xn * sd) * nd))
            by (nonlinear_arith)
            requires
                (sn * xd + xn * sd) * nd == (sn * xd) * nd + (xn * sd) * nd,
        {
        }
        assert(p1 * ((sn * xd) * nd) == (sn * p1) * (xd * nd)) by (nonlinear_arith) {
        }
        assert(p1 * ((xn * sd) * nd) == (xn * p1) * (sd * nd)) by (nonlinear_arith) {
        }
        assert(p1 * ((sn * xd + xn * sd) * nd) == (sn * p1) * (xd * nd) + (xn * p1) * (sd * nd));
        assert((p0 * sd) * (xd * nd) == (sn * p1) * (xd * nd));
        assert(((p0 * xd + xn * p1) * nd) * sd == p1 * ((sn * xd + xn * sd) * nd));
        assert(nn * (sd * xd) == (sn * xd + xn * sd) * nd) by (nonlinear_arith)
            requires
                p1 * (nn * (sd * xd)) == p1 * ((sn * xd + xn * sd) * nd),
                p1 > 0,
        {
        }
    }
}

/// Numerator of the exact dot product of two equally long sequences,
/// over the common denominator `dot_d`.
pub open spec fn dot_n(a: Seq<Rat>, b: Seq<Rat>) -> int
    decreases a.len(),
{
    if a.len() == 0 || b.len() == 0 {
        0
    } else {
        dot_n(a.drop_last(), b.drop_last()) * mul_d(a.last(), b.last()) + mul_n(
            a.last(),
            b.last(),
        ) * dot_d(a.drop_last(), b.drop_last())
    }
}

/// Common denominator of the exact dot product.
pub open spec fn dot_d(a: Seq<Rat>, b: Seq<Rat>) -> int
    decreases a.len(),
{
    if a.len() == 0 || b.len() == 0 {
        1
    } else {
        dot_d(a.drop_last(), b.drop_last()) * mul_d(a.last(), b.last())
    }
}

/// The reduced entry-wise products of two sequences.
pub open spec fn prod_seq(a: Seq<Rat>, b: Seq<Rat>) -> Seq<Rat> {
    Seq::new(a.len(), |i: int| norm_rat(mul_n(a[i], b[i]), mul_d(a[i], b[i])))
}

/// Every reduced entry-wise product fits the machine word.
pub open spec fn prods_fit(a: Seq<Rat>, b: Seq<Rat>) -> bool {
    forall|i: int|
        0 <= i < a.len() ==> norm_fits(mul_n(#[trigger] a[i], b[i]), mul_d(a[i], b[i]))
}

/// The whole checked dot product fits the machine word.
pub open spec fn dot_fits(a: Seq<Rat>, b: Seq<Rat>) -> bool {
    prods_fit(a, b) && sum_fits(prod_seq(a, b))
}

/// The sum of the reduced entry-wise products names the exact dot
/// product.
proof fn lemma_sum_prod(a: Seq<Rat>, b: Seq<Rat>)
    requires
        a.len() == b.len(),
        vec_wf(a),
        vec_wf(b),
        prods_fit(a, b),
    ensures
        vec_wf(prod_seq(a, b)),
        sum_d(prod_seq(a, b)) > 0,
        dot_d(a, b) > 0,
        sum_n(prod_seq(a, b)) * dot_d(a, b) == dot_n(a, b) * sum_d(prod_seq(a, b)),
    decreases a.len(),
{
    let p = prod_seq(a, b);
    assert forall|i: int| 0 <= i < p.len() implies (#[trigger] p[i]).wf() by {
        lemma_pos_prod(a[i].d(), b[i].d());
        lemma_norm_rat(mul_n(a[i], b[i]), mul_d(a[i], b[i]));
    }
    if a.len() == 0 {
    } else {
        let a1 = a.drop_last();
        let b1 = b.drop_last();
        lemma_sum_prod(a1, b1);
        let p1 = prod_seq(a1, b1);
        assert(p.drop_last() =~= p1);
        let la = a.last();
        let lb = b.last();
        let lp = p.last();
        lemma_pos_prod(la.d(), lb.d());
        lemma_norm_rat(mul_n(la, lb), mul_d(la, lb));
        let ln = lp.n();
        let ld = lp.d();
        let mn = mul_n(la, lb);
        let md = mul_d(la, lb);
        let sn = sum_n(p1);
        let sd = sum_d(p1);
        let dn = dot_n(a1, b1);
        let dd = dot_d(a1, b1);
        lemma_pos_prod(sd, ld);
        lemma_pos_prod(dd, md);
        // ln * md == mn * ld;  sn * dd == dn * sd
        assert((sn * ld + ln * sd) * (dd * md) == (sn * ld) * (dd * md) + (ln * sd) * (dd * md))
            by (nonlinear_arith) {
        }
        assert((sn * ld) * (dd * md) == (sn * dd) * (ld * md)) by (nonlinear_arith) {
        }
        assert((ln * sd) * (dd * md) == (ln * md) * (sd * dd)) by (nonlinear_arith) {
        }
        assert((sn * ld + ln * sd) * (dd * md) == (sn * dd) * (ld * md) + (ln * md) * (sd * dd));
        assert((dn * md + mn * dd) * (sd * ld) == (dn * md) * (sd * ld) + (mn * dd) * (sd * ld))
            by (nonlinear_arith) {
        }
        assert((dn * md) * (sd * ld) == (dn * sd) * (ld * md)) by (nonlinear_arith) {
        }
        assert((mn * dd) * (sd * ld) == (mn * ld) * (sd * dd)) by (nonlinear_arith) {
        }
        assert((dn * md + mn * dd) * (sd * ld) == (dn * sd) * (ld * md) + (mn * ld) * (sd * dd));
        assert((sn * dd) * (ld * md) == (dn * sd) * (ld * md));
        assert((ln * md) * (sd * dd) == (mn * ld) * (sd * dd));
        assert(sum_n(p) == sn * ld + ln * sd);
        assert(sum_d(p) == sd * ld);
        assert(dot_n(a, b) == dn * md + mn * dd);
        assert(dot_d(a, b) == dd * md);
        assert((sd * ld) * (dd * md) == (dd * md) * (sd * ld)) by (nonlinear_arith) {
        }
        assert(sum_n(p) * dot_d(a, b) == dot_n(a, b) * sum_d(p));
    }
}

/// The position of the first entry from `from` on that is not zero.
pub open spec fn first_nz(s: Seq<Rat>, from: int) -> Option<int>
    decreases s.len() - from,
{
    if from < 0 || from >= s.len() {
        None
    } else if s[from].n() != 0 {
        Some(from)
    } else {
        first_nz(s, from + 1)
    }
}

/// Element-for-element copy of a rational vector.
fn copy_rats(v: &Vec<Rat>) -> (r: Vec<Rat>)
    ensures
        r@ == v@,
{
    let mut out: Vec<Rat> = Vec::new();
    let mut i: usize = 0;
    while i < v.len()
        invariant
            0 <= i <= v.len(),
            out@ == v@.take(i as int),
        decreases v.len() - i,
    {
        out.push(v[i]);
        proof {
            assert(out@ =~= v@.take(i + 1 as int));
        }
        i = i + 1;
    }
    proof {
        assert(v@.take(v@.len() as int) =~= v@);
    }
    out
}

/// The reduced exact sum of the entries; `None` exactly when some step
/// of the fold overflows the machine word.
fn sum_all(data: &Vec<Rat>) -> (r: Option<Rat>)
    requires
        vec_wf(data@),
    ensures
        r is Some <==> sum_fits(data@),
        r matches Some(v) ==> {
            &&& v.wf()
            &&& v.n() == sum_state(data@, data@.len() as int).0
            &&& v.d() == sum_state(data@, data@.len() as int).1
        },
{
    let ghost s = data@;
    let mut acc = Rat::zero();
    let mut i: usize = 0;
    while i < data.len()
        invariant
            0 <= i <= data.len(),
            data@ == s,
            vec_wf(s),
            sum_ok(s, i as int),
            acc.wf(),
            acc.n() == sum_state(s, i as int).0,
            acc.d() == sum_state(s, i as int).1,
        decreases data.len() - i,
    {
        let x = data[i];
        match acc.checked_add(&x) {
            Some(v) => {
                acc = v;
                i = i + 1;
            },
            None => {
                proof {
                    assert(!sum_ok(s, i + 1));
                    if sum_ok(s, s.len() as int) {
                        lemma_sum_ok_mono(s, i + 1, s.len() as int);
                    }
                }
                return None;
            },
        }
    }
    Some(acc)
}

/// A general fixed-length vector of exact rationals.
#[derive(Clone, Debug, PartialEq, Eq)]
pub struct Vector {
    data: Vec<Rat>,
}

impl View for Vector {
    type V = Seq<Rat>;

    closed spec fn view(&self) -> Seq<Rat> {
        self.data@
    }
}

impl Vector {
    /// Every entry is a well-formed rational.
    pub open spec fn wf(self) -> bool {
        vec_wf(self@)
    }

    /// The all-zero vector of length `n`.
    pub fn zero_vector(n: usize) -> (r: Vector)
        ensures
            r@.len() == n,
            r.wf(),
            forall|i: int| 0 <= i < n ==> (#[trigger] r@[i]) == norm_rat(0, 1),
            forall|i: int| 0 <= i < n ==> r@[i].n() == 0 && r@[i].d() == 1,
    {
        let mut data: Vec<Rat> = Vec::new();
        let mut i: usize = 0;
        while i < n
            invariant
                0 <= i <= n,
                data@.len() == i,
                forall|j: int| 0 <= j < i ==> (#[trigger] data@[j]) == norm_rat(0, 1),
                forall|j: int| 0 <= j < i ==> data@[j].wf() && data@[j].n() == 0 && data@[j].d()
                    == 1,
            decreases n - i,
        {
            data.push(Rat::zero());
            i = i + 1;
        }
        Vector { data }
    }

    /// Wraps raw data as a general vector; the data defines the length.
    pub fn from_data(data: Vec<Rat>) -> (r: Vector)
        ensures
            r@ == data@,
    {
        Vector { data }
    }

    /// The number of entries.
    pub fn len(&self) -> (r: usize)
        ensures
            r == self@.len(),
    {
        self.data.len()
    }

    /// The entry at position `i`.
    pub fn get(&self, i: usize) -> (r: Rat)
        requires
            i < self@.len(),
        ensures
            r == self@[i as int],
    {
        self.data[i]
    }

    /// Replaces the entry at position `i`.
    pub fn set(&mut self, i: usize, v: Rat)
        requires
            i < old(self)@.len(),
        ensures
            final(self)@ == old(self)@.update(i as int, v),
    {
        self.data.set(i, v);
    }

    /// The position of the first entry that is not zero, if any.
    pub fn first_non_zero_term(&self) -> (r: Option<usize>)
        ensures
            r matches Some(i) ==> {
                &&& i < self@.len()
                &&& self@[i as int].n() != 0
                &&& forall|j: int| 0 <= j < i ==> self@[j].n() == 0
                &&& first_nz(self@, 0) == Some(i as int)
            },
            r is None ==> (forall|j: int| 0 <= j < self@.len() ==> self@[j].n() == 0)
                && first_nz(self@, 0) is None,
    {
        let mut i: usize = 0;
        while i < self.data.len()
            invariant
                0 <= i <= self@.len(),
                forall|j: int| 0 <= j < i ==> self@[j].n() == 0,
                first_nz(self@, 0) == first_nz(self@, i as int),
            decreases self@.len() - i,
        {
            if !self.data[i].is_zero() {
                return Some(i);
            }
            i = i + 1;
        }
        None
    }

    /// The reduced exact sum of the entries; absent exactly when some
    /// step of the checked fold no longer fits the machine word.
    pub fn sum(&self) -> (r: Option<Rat>)
        requires
            self.wf(),
        ensures
            r is Some <==> sum_fits(self@),
            r matches Some(v) ==> {
                &&& v.wf()
                &&& v.n() == sum_state(self@, self@.len() as int).0
                &&& v.d() == sum_state(self@, self@.len() as int).1
                &&& sum_d(self@) > 0
                &&& rat_eq_frac(v, sum_n(self@), sum_d(self@))
            },
    {
        let r = sum_all(&self.data);
        proof {
            if r is Some {
                lemma_sum_state(self@, self@.len() as int);
                assert(self@.take(self@.len() as int) =~= self@);
            }
        }
        r
    }

    /// The exact dot product with `other`; `None` exactly when some
    /// reduced intermediate no longer fits the machine word.
    pub fn dot(&self, other: &Vector) -> (r: Option<Rat>)
        requires
            self.wf(),
            other.wf(),
            self@.len() == other@.len(),
        ensures
            r is Some <==> dot_fits(self@, other@),
            r matches Some(v) ==> {
                &&& v.wf()
                &&& dot_d(self@, other@) > 0
                &&& rat_eq_frac(v, dot_n(self@, other@), dot_d(self@, other@))
            },
    {
        let ghost a = self@;
        let ghost b = other@;
        let mut prods: Vec<Rat> = Vec::new();
        let mut i: usize = 0;
        while i < self.data.len()
            invariant
                0 <= i <= a.len(),
                a == self@,
                b == other@,
                a.len() == b.len(),
                vec_wf(a),
                vec_wf(b),
                prods@.len() == i,
                forall|j: int|
                    0 <= j < i ==> norm_fits(mul_n(#[trigger] a[j], b[j]), mul_d(a[j], b[j])),
                forall|j: int| 0 <= j < i ==> (#[trigger] prods@[j]) == prod_seq(a, b)[j],
            decreases a.len() - i,
        {
            match self.data[i].checked_mul(&other.data[i]) {
                Some(v) => {
                    prods.push(v);
                    i = i + 1;
                },
                None => {
                    return None;
                },
            }
        }
        proof {
            assert(prods@ =~= prod_seq(a, b));
            assert forall|j: int| 0 <= j < prods@.len() implies (#[trigger] prods@[j]).wf() by {
                lemma_pos_prod(a[j].d(), b[j].d());
                lemma_norm_rat(mul_n(a[j], b[j]), mul_d(a[j], b[j]));
            }
        }
        let total = sum_all(&prods);
        proof {
            if total is Some {
                lemma_sum_state(prods@, prods@.len() as int);
                assert(prods@.take(prods@.len() as int) =~= prods@);
                lemma_sum_prod(a, b);
                let v = total->Some_0;
                crate::rational::lemma_frac_to_frac(
                    v,
                    sum_n(prods@),
                    sum_d(prods@),
                    dot_n(a, b),
                    dot_d(a, b),
                );
            }
        }
        total
    }

    /// Does some entry equal zero?
    pub fn contains_zero(&self) -> (r: bool)
        ensures
            r == exists|i: int| 0 <= i < self@.len() && self@[i].n() == 0,
    {
        let mut i: usize = 0;
        while i < self.data.len()
            invariant
                0 <= i <= self@.len(),
                forall|j: int| 0 <= j < i ==> self@[j].n() != 0,
            decreases self@.len() - i,
        {
            if self.data[i].is_zero() {
                return true;
            }
            i = i + 1;
        }
        false
    }

    /// Exact entry-wise addition.  Fails with `DimensionMismatch` when
    /// the lengths differ, and with `NumericOverflow` exactly when some
    /// reduced entry sum no longer fits the machine word.
    pub fn vector_addition(&self, other: &Vector) -> (r: Result<Vector, RankError>)
        requires
            self.wf(),
            other.wf(),
        ensures
            self@.len() != other@.len() ==> r == Err::<Vector, RankError>(
                RankError::DimensionMismatch,
            ),
            self@.len() == other@.len() ==> (r is Ok <==> forall|i: int|
                0 <= i < self@.len() ==> norm_fits(
                    add_n(self@[i], other@[i]),
                    add_d(self@[i], other@[i]),
                )),
            r matches Ok(v) ==> {
                &&& v@.len() == self@.len()
                &&& v.wf()
                &&& forall|i: int|
                    0 <= i < self@.len() ==> (#[trigger] v@[i]) == norm_rat(
                        add_n(self@[i], other@[i]),
                        add_d(self@[i], other@[i]),
                    )
                &&& forall|i: int|
                    0 <= i < self@.len() ==> rat_eq_frac(
                        v@[i],
                        add_n(self@[i], other@[i]),
                        add_d(self@[i], other@[i]),
                    )
            },
            r is Err ==> r == Err::<Vector, RankError>(RankError::DimensionMismatch) || r == Err::<
                Vector,
                RankError,
            >(RankError::NumericOverflow),
            self@.len() == other@.len() && r is Err ==> r == Err::<Vector, RankError>(
                RankError::NumericOverflow,
            ),
    {
        if self.data.len() != other.data.len() {
            return Err(RankError::DimensionMismatch);
        }
        let mut out: Vec<Rat> = Vec::new();
        let mut i: usize = 0;
        while i < self.data.len()
            invariant
                0 <= i <= self@.len(),
                self@.len() == other@.len(),
                self.wf(),
                other.wf(),
                out@.len() == i,
                forall|j: int| 0 <= j < i ==> (#[trigger] out@[j]).wf(),
                forall|j: int|
                    0 <= j < i ==> norm_fits(
                        add_n(self@[j], other@[j]),
                        add_d(self@[j], other@[j]),
                    ),
                forall|j: int|
                    0 <= j < i ==> (#[trigger] out@[j]) == norm_rat(
                        add_n(self@[j], other@[j]),
                        add_d(self@[j], other@[j]),
                    ),
                forall|j: int|
                    0 <= j < i ==> rat_eq_frac(
                        #[trigger] out@[j],
                        add_n(self@[j], other@[j]),
                        add_d(self@[j], other@[j]),
                    ),
            decreases self@.len() - i,
        {
            match self.data[i].checked_add(&other.data[i]) {
                Some(v) => {
                    out.push(v);
                    i = i + 1;
                },
                None => {
                    return Err(RankError::NumericOverflow);
                },
            }
        }
        Ok(Vector { data: out })
    }

    /// Exact subtraction, as addition of the other vector scaled by
    /// minus one.
    pub fn vector_subtraction(&self, other: &Vector) -> (r: Result<Vector, RankError>)
        requires
            self.wf(),
            other.wf(),
        ensures
            self@.len() != other@.len() ==> r == Err::<Vector, RankError>(
                RankError::DimensionMismatch,
            ),
            self@.len() == other@.len() ==> (r is Ok <==> forall|i: int|
                0 <= i < self@.len() ==> norm_fits(
                    self@[i].n() * other@[i].d() - other@[i].n() * self@[i].d(),
                    add_d(self@[i], other@[i]),
                )),
            r matches Ok(v) ==> {
                &&& v@.len() == self@.len()
                &&& v.wf()
                &&& forall|i: int|
                    0 <= i < self@.len() ==> (#[trigger] v@[i]) == norm_rat(
                        self@[i].n() * other@[i].d() - other@[i].n() * self@[i].d(),
                        add_d(self@[i], other@[i]),
                    )
                &&& forall|i: int|
                    0 <= i < self@.len() ==> rat_eq_frac(
                        v@[i],
                        self@[i].n() * other@[i].d() - other@[i].n() * self@[i].d(),
                        add_d(self@[i], other@[i]),
                    )
            },
            r is Err ==> r == Err::<Vector, RankError>(RankError::DimensionMismatch) || r == Err::<
                Vector,
                RankError,
            >(RankError::NumericOverflow),
            self@.len() == other@.len() && r is Err ==> r == Err::<Vector, RankError>(
                RankError::NumericOverflow,
            ),
    {
        if self.data.len() != other.data.len() {
            return Err(RankError::DimensionMismatch);
        }
        let mut out: Vec<Rat> = Vec::new();
        let mut i: usize = 0;
        while i < self.data.len()
            invariant
                0 <= i <= self@.len(),
                self@.len() == other@.len(),
                self.wf(),
                other.wf(),
                out@.len() == i,
                forall|j: int| 0 <= j < i ==> (#[trigger] out@[j]).wf(),
                forall|j: int|
                    0 <= j < i ==> norm_fits(
                        self@[j].n() * other@[j].d() - other@[j].n() * self@[j].d(),
                        add_d(self@[j], other@[j]),
                    ),
                forall|j: int|
                    0 <= j < i ==> (#[trigger] out@[j]) == norm_rat(
                        self@[j].n() * other@[j].d() - other@[j].n() * self@[j].d(),
                        add_d(self@[j], other@[j]),
                    ),
                forall|j: int|
                    0 <= j < i ==> rat_eq_frac(
                        #[trigger] out@[j],
                        self@[j].n() * other@[j].d() - other@[j].n() * self@[j].d(),
                        add_d(self@[j], other@[j]),
                    ),
            decreases self@.len() - i,
        {
            match self.data[i].checked_sub(&other.data[i]) {
                Some(v) => {
                    out.push(v);
                    i = i + 1;
                },
                None => {
                    return Err(RankError::NumericOverflow);
                },
            }
        }
        Ok(Vector { data: out })
    }

    /// Exact scaling of every entry by `k`.  Fails with
    /// `NumericOverflow` exactly when some reduced product no longer
    /// fits the machine word.
    pub fn scalar_multiply(&self, k: &Rat) -> (r: Result<Vector, RankError>)
        requires
            self.wf(),
            k.wf(),
        ensures
            r is Ok <==> forall|i: int|
                0 <= i < self@.len() ==> norm_fits(mul_n(self@[i], *k), mul_d(self@[i], *k)),
            r matches Ok(v) ==> {
                &&& v@.len() == self@.len()
                &&& v.wf()
                &&& forall|i: int|
                    0 <= i < self@.len() ==> (#[trigger] v@[i]) == norm_rat(
                        mul_n(self@[i], *k),
                        mul_d(self@[i], *k),
                    )
                &&& forall|i: int|
                    0 <= i < self@.len() ==> rat_eq_frac(
                        v@[i],
                        mul_n(self@[i], *k),
                        mul_d(self@[i], *k),
                    )
            },
            r is Err ==> r == Err::<Vector, RankError>(RankError::NumericOverflow),
    {
        let mut out: Vec<Rat> = Vec::new();
        let mut i: usize = 0;
        while i < self.data.len()
            invariant
                0 <= i <= self@.len(),
                self.wf(),
                k.wf(),
                out@.len() == i,
                forall|j: int| 0 <= j < i ==> (#[trigger] out@[j]).wf(),
                forall|j: int| 0 <= j < i ==> norm_fits(mul_n(self@[j], *k), mul_d(self@[j], *k)),
                forall|j: int|
                    0 <= j < i ==> (#[trigger] out@[j]) == norm_rat(
                        mul_n(self@[j], *k),
                        mul_d(self@[j], *k),
                    ),
                forall|j: int|
                    0 <= j < i ==> rat_eq_frac(
                        #[trigger] out@[j],
                        mul_n(self@[j], *k),
                        mul_d(self@[j], *k),
                    ),
            decreases self@.len() - i,
        {
            match self.data[i].checked_mul(k) {
                Some(v) => {
                    out.push(v);
                    i = i + 1;
                },
                None => {
                    return Err(RankError::NumericOverflow);
                },
            }
        }
        Ok(Vector { data: out })
    }

    /// Validates the probability invariant: non-negative entries with an
    /// exact sum of one.  On success the returned vector carries the
    /// same entries.
    pub fn probability_vector(&self) -> (r: Result<Probability, RankError>)
        requires
            self.wf(),
        ensures
            r matches Ok(p) ==> p@ == self@ && is_prob_dist(self@),
            sum_fits(self@) && is_prob_dist(self@) ==> r is Ok,
            r matches Err(e) ==> {
                &&& !(sum_fits(self@) && is_prob_dist(self@))
                &&& (e == RankError::NotAProbabilityDistribution || e == RankError::NumericOverflow)
                &&& (e == RankError::NotAProbabilityDistribution ==> !is_prob_dist(self@))
                &&& (e == RankError::NumericOverflow ==> !sum_fits(self@))
            },
    {
        let mut i: usize = 0;
        while i < self.data.len()
            invariant
                0 <= i <= self@.len(),
                self.wf(),
                forall|j: int| 0 <= j < i ==> self@[j].n() >= 0,
            decreases self@.len() - i,
        {
            if !self.data[i].is_nonneg() {
                return Err(RankError::NotAProbabilityDistribution);
            }
            i = i + 1;
        }
        match sum_all(&self.data) {
            None => Err(RankError::NumericOverflow),
            Some(total) => {
                proof {
                    lemma_sum_state(self@, self@.len() as int);
                    assert(self@.take(self@.len() as int) =~= self@);
                }
                let ghost sn = sum_n(self@);
                let ghost sd = sum_d(self@);
                if total.is_one() {
                    proof {
                        assert(sn == sd) by (nonlinear_arith)
                            requires
                                total.n() * sd == sn * total.d(),
                                total.n() == total.d(),
                                total.d() > 0,
                                sd > 0,
                        {
                        }
                    }
                    Ok(Probability { data: Vector { data: copy_rats(&self.data) } })
                } else {
                    proof {
                        assert(sn != sd) by (nonlinear_arith)
                            requires
                                total.n() * sd == sn * total.d(),
                                total.n() != total.d(),
                                total.d() > 0,
                                sd > 0,
                        {
                        }
                    }
                    Err(RankError::NotAProbabilityDistribution)
                }
            },
        }
    }
}

/// A vector validated to be a probability distribution.
#[derive(Clone, Debug, PartialEq, Eq)]
pub struct Probability {
    data: Vector,
}

impl View for Probability {
    type V = Seq<Rat>;

    closed spec fn view(&self) -> Seq<Rat> {
        self.data@
    }
}

impl Probability {
    /// Entries are well-formed, non-negative, and sum to exactly one.
    pub open spec fn wf(self) -> bool {
        vec_wf(self@) && is_prob_dist(self@)
    }

    /// The number of entries.
    pub fn len(&self) -> (r: usize)
        ensures
            r == self@.len(),
    {
        self.data.len()
    }

    /// The entry at position `i`.
    pub fn get(&self, i: usize) -> (r: Rat)
        requires
            i < self@.len(),
        ensures
            r == self@[i as int],
    {
        self.data.get(i)
    }

    /// The same entries as a general vector.
    pub fn general(&self) -> (r: Vector)
        ensures
            r@ == self@,
    {
        Vector { data: copy_rats(&self.data.data) }
    }

    /// Checks strict positivity of every entry, a necessary condition
    /// for the regularity of the associated Markov chain.
    pub fn regular(&self) -> (r: Option<ProbabilityRegular>)
        ensures
            r is Some <==> forall|i: int| 0 <= i < self@.len() ==> self@[i].n() > 0,
            r matches Some(p) ==> p@ == self@,
    {
        let mut i: usize = 0;
        while i < self.data.len()
            invariant
                0 <= i <= self@.len(),
                forall|j: int| 0 <= j < i ==> self@[j].n() > 0,
            decreases self@.len() - i,
        {
            if !self.data.data[i].is_pos() {
                return None;
            }
            i = i + 1;
        }
        Some(ProbabilityRegular { data: Vector { data: copy_rats(&self.data.data) } })
    }
}

/// A probability vector with every entry strictly positive.
#[derive(Clone, Debug, PartialEq, Eq)]
pub struct ProbabilityRegular {
    data: Vector,
}

impl View for ProbabilityRegular {
    type V = Seq<Rat>;

    closed spec fn view(&self) -> Seq<Rat> {
        self.data@
    }
}

impl ProbabilityRegular {
    /// The number of entries.
    pub fn len(&self) -> (r: usize)
        ensures
            r == self@.len(),
    {
        self.data.len()
    }

    /// The entry at position `i`.
    pub fn get(&self, i: usize) -> (r: Rat)
        requires
            i < self@.len(),
        ensures
            r == self@[i as int],
    {
        self.data.get(i)
    }
}

} // verus!
