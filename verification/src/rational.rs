//! Exact rational arithmetic.
//!
//! `Q` is the mathematical model: a pair of integers `n / d` with `d > 0`.
//! Two `Q` values denote the same rational when they cross-multiply equally;
//! `q_eq` and `q_lt` decide value equality and order that way, so no
//! reduction to lowest terms is ever needed.
//!
//! `Rat` is the executable counterpart, holding its numerator and denominator
//! as arbitrary-precision integers, and `Number` is the plain input form a
//! caller supplies: a pair of machine integers whose denominator `0` marks a
//! non-finite value (the analogue of an IEEE NaN or infinity).

use crate::bignum::{big_add, big_clone, big_eq, big_from_i64, big_int, big_lt, big_mul, big_sub};
use num_bigint::BigInt;
use vstd::arithmetic::mul::{lemma_mul_nonnegative, lemma_mul_strictly_positive};
use vstd::prelude::*;

verus! {

/// A rational number modeled as the fraction `n / d`.
pub ghost struct Q {
    pub n: int,
    pub d: int,
}

/// A well-formed fraction has a positive denominator.
pub open spec fn q_wf(a: Q) -> bool {
    a.d > 0
}

pub open spec fn q_int(v: int) -> Q {
    Q { n: v, d: 1 }
}

pub open spec fn q_zero() -> Q {
    q_int(0)
}

pub open spec fn q_add(a: Q, b: Q) -> Q {
    Q { n: a.n * b.d + b.n * a.d, d: a.d * b.d }
}

pub open spec fn q_sub(a: Q, b: Q) -> Q {
    Q { n: a.n * b.d - b.n * a.d, d: a.d * b.d }
}

pub open spec fn q_mul(a: Q, b: Q) -> Q {
    Q { n: a.n * b.n, d: a.d * b.d }
}

/// Division; well-formed only for a divisor whose value is positive.
pub open spec fn q_div(a: Q, b: Q) -> Q {
    Q { n: a.n * b.d, d: a.d * b.n }
}

pub open spec fn q_sq(a: Q) -> Q {
    q_mul(a, a)
}

/// Value order: `a < b` decided by cross-multiplication.
pub open spec fn q_lt(a: Q, b: Q) -> bool {
    a.n * b.d < b.n * a.d
}

/// Value equality: `a == b` as rationals, not as pairs.
pub open spec fn q_eq(a: Q, b: Q) -> bool {
    a.n * b.d == b.n * a.d
}

/// A well-formed fraction is zero exactly when its numerator is.
pub open spec fn q_is_zero(a: Q) -> bool {
    a.n == 0
}

pub open spec fn q_nonneg(a: Q) -> bool {
    a.n >= 0
}

/// The sum of a sequence of fractions, folded from the left.
pub open spec fn q_sum(s: Seq<Q>) -> Q
    decreases s.len(),
{
    if s.len() == 0 {
        q_zero()
    } else {
        q_add(q_sum(s.drop_last()), s.last())
    }
}

// ---------------------------------------------------------------------------
// Order and congruence lemmas.
// ---------------------------------------------------------------------------

pub proof fn lemma_q_lt_trans(a: Q, b: Q, c: Q)
    by (nonlinear_arith)
    requires
        q_wf(a),
        q_wf(b),
        q_wf(c),
        q_lt(a, b),
        q_lt(b, c),
    ensures
        q_lt(a, c),
{
}

pub proof fn lemma_q_eq_trans(a: Q, b: Q, c: Q)
    by (nonlinear_arith)
    requires
        q_wf(a),
        q_wf(b),
        q_wf(c),
        q_eq(a, b),
        q_eq(b, c),
    ensures
        q_eq(a, c),
{
}

/// Fractions equal in value compare identically against any third fraction.
pub proof fn lemma_q_eq_lt_compat(a: Q, b: Q, c: Q)
    by (nonlinear_arith)
    requires
        q_wf(a),
        q_wf(b),
        q_wf(c),
        q_eq(a, b),
    ensures
        q_lt(a, c) == q_lt(b, c),
        q_lt(c, a) == q_lt(c, b),
        q_eq(a, c) == q_eq(b, c),
{
}

pub proof fn lemma_q_add_wf(a: Q, b: Q)
    requires
        q_wf(a),
        q_wf(b),
    ensures
        q_wf(q_add(a, b)),
        q_wf(q_sub(a, b)),
        q_wf(q_mul(a, b)),
{
    lemma_mul_strictly_positive(a.d, b.d);
}

/// Adding a zero-valued fraction does not change the value.
pub proof fn lemma_q_add_zero(a: Q, z: Q)
    by (nonlinear_arith)
    requires
        q_wf(a),
        q_wf(z),
        q_is_zero(z),
    ensures
        q_eq(q_add(a, z), a),
        q_wf(q_add(a, z)),
{
}

/// Congruence of fraction addition, over plain integers.
proof fn lemma_frac_add_congr(an: int, ad: int, bn: int, bd: int, cn: int, cd: int, en: int, ed: int)
    requires
        an * cd == cn * ad,
        bn * ed == en * bd,
    ensures
        (an * bd + bn * ad) * (cd * ed) == (cn * ed + en * cd) * (ad * bd),
{
    broadcast use vstd::arithmetic::mul::group_mul_properties;

    assert((an * bd + bn * ad) * (cd * ed) == (an * bd) * (cd * ed) + (bn * ad) * (cd * ed));
    assert((an * bd) * (cd * ed) == (an * cd) * (bd * ed)) by (nonlinear_arith);
    assert((an * cd) * (bd * ed) == (cn * ad) * (bd * ed));
    assert((cn * ad) * (bd * ed) == (cn * ed) * (ad * bd)) by (nonlinear_arith);
    assert((bn * ad) * (cd * ed) == (bn * ed) * (ad * cd)) by (nonlinear_arith);
    assert((bn * ed) * (ad * cd) == (en * bd) * (ad * cd));
    assert((en * bd) * (ad * cd) == (en * cd) * (ad * bd)) by (nonlinear_arith);
    assert((cn * ed + en * cd) * (ad * bd) == (cn * ed) * (ad * bd) + (en * cd) * (ad * bd));
}

/// Addition respects value equality.
pub proof fn lemma_q_add_congr(a: Q, b: Q, a2: Q, b2: Q)
    requires
        q_wf(a),
        q_wf(b),
        q_wf(a2),
        q_wf(b2),
        q_eq(a, a2),
        q_eq(b, b2),
    ensures
        q_eq(q_add(a, b), q_add(a2, b2)),
{
    lemma_frac_add_congr(a.n, a.d, b.n, b.d, a2.n, a2.d, b2.n, b2.d);
}

/// Multiplication respects value equality.
#[verifier::rlimit(50)]
pub proof fn lemma_q_mul_congr(a: Q, b: Q, a2: Q, b2: Q)
    by (nonlinear_arith)
    requires
        q_wf(a),
        q_wf(b),
        q_wf(a2),
        q_wf(b2),
        q_eq(a, a2),
        q_eq(b, b2),
    ensures
        q_eq(q_mul(a, b), q_mul(a2, b2)),
{
}

/// Squares of well-formed fractions are non-negative.
pub proof fn lemma_q_sq_nonneg(a: Q)
    requires
        q_wf(a),
    ensures
        q_wf(q_sq(a)),
        q_nonneg(q_sq(a)),
{
    lemma_mul_strictly_positive(a.d, a.d);
    if a.n >= 0 {
        lemma_mul_nonnegative(a.n, a.n);
    } else {
        lemma_mul_nonnegative(-a.n, -a.n);
        assert((-a.n) * (-a.n) == a.n * a.n) by (nonlinear_arith);
    }
}

/// Sums of non-negative fractions are non-negative, and zero only if the
/// last summand and the rest both are.
pub proof fn lemma_q_add_nonneg(a: Q, b: Q)
    by (nonlinear_arith)
    requires
        q_wf(a),
        q_wf(b),
        q_nonneg(a),
        q_nonneg(b),
    ensures
        q_nonneg(q_add(a, b)),
        q_is_zero(q_add(a, b)) <==> q_is_zero(a) && q_is_zero(b),
{
}

/// Products of non-negative fractions are non-negative.
pub proof fn lemma_q_mul_nonneg(a: Q, b: Q)
    by (nonlinear_arith)
    requires
        q_wf(a),
        q_wf(b),
        q_nonneg(a),
        q_nonneg(b),
    ensures
        q_wf(q_mul(a, b)),
        q_nonneg(q_mul(a, b)),
{
}

/// Dividing a non-negative fraction by a positive one keeps it non-negative.
pub proof fn lemma_q_div_nonneg(a: Q, b: Q)
    by (nonlinear_arith)
    requires
        q_wf(a),
        q_wf(b),
        q_nonneg(a),
        q_nonneg(b),
        !q_is_zero(b),
    ensures
        q_wf(q_div(a, b)),
        q_nonneg(q_div(a, b)),
        q_is_zero(q_div(a, b)) == q_is_zero(a),
{
}

/// A sum of well-formed, non-negative fractions is well-formed and
/// non-negative.
pub proof fn lemma_q_sum_nonneg(s: Seq<Q>)
    requires
        forall|t: int| 0 <= t < s.len() ==> q_wf(#[trigger] s[t]) && q_nonneg(s[t]),
    ensures
        q_wf(q_sum(s)),
        q_nonneg(q_sum(s)),
    decreases s.len(),
{
    if s.len() > 0 {
        lemma_q_sum_nonneg(s.drop_last());
        lemma_q_add_wf(q_sum(s.drop_last()), s.last());
        lemma_q_add_nonneg(q_sum(s.drop_last()), s.last());
    }
}

/// Fractions equal in value are zero together.
pub proof fn lemma_q_eq_zero(a: Q, b: Q)
    by (nonlinear_arith)
    requires
        q_wf(a),
        q_wf(b),
        q_eq(a, b),
    ensures
        q_is_zero(a) == q_is_zero(b),
{
}

/// Division respects value equality (for positive divisors).
#[verifier::rlimit(50)]
pub proof fn lemma_q_div_congr(a: Q, b: Q, a2: Q, b2: Q)
    by (nonlinear_arith)
    requires
        q_wf(a),
        q_wf(b),
        q_wf(a2),
        q_wf(b2),
        q_nonneg(b),
        q_nonneg(b2),
        !q_is_zero(b),
        !q_is_zero(b2),
        q_eq(a, a2),
        q_eq(b, b2),
    ensures
        q_eq(q_div(a, b), q_div(a2, b2)),
{
}

/// A sum of well-formed fractions is well-formed.
pub proof fn lemma_q_sum_wf(s: Seq<Q>)
    requires
        forall|t: int| 0 <= t < s.len() ==> q_wf(#[trigger] s[t]),
    ensures
        q_wf(q_sum(s)),
    decreases s.len(),
{
    if s.len() > 0 {
        lemma_q_sum_wf(s.drop_last());
        lemma_q_add_wf(q_sum(s.drop_last()), s.last());
    }
}

/// Removing a zero-valued summand does not change the value of a sum.
pub proof fn lemma_q_sum_remove_zero(s: Seq<Q>, j: int)
    requires
        forall|t: int| 0 <= t < s.len() ==> q_wf(#[trigger] s[t]),
        0 <= j < s.len(),
        q_is_zero(s[j]),
    ensures
        q_eq(q_sum(s), q_sum(s.remove(j))),
    decreases s.len(),
{
    s.remove_ensures(j);
    lemma_q_sum_wf(s);
    lemma_q_sum_wf(s.drop_last());
    if j == s.len() - 1 {
        assert(s.remove(j) =~= s.drop_last());
        lemma_q_add_zero(q_sum(s.drop_last()), s.last());
    } else {
        let s2 = s.drop_last();
        lemma_q_sum_remove_zero(s2, j);
        s2.remove_ensures(j);
        assert(s.remove(j).drop_last() =~= s2.remove(j));
        assert(s.remove(j).last() == s.last());
        lemma_q_sum_wf(s2.remove(j));
        lemma_q_add_congr(q_sum(s2), s.last(), q_sum(s2.remove(j)), s.last());
    }
}

/// Scaling by a positive fraction preserves the order.
pub proof fn lemma_q_lt_scale(c: Q, x: Q, y: Q)
    requires
        q_wf(c),
        q_wf(x),
        q_wf(y),
        q_lt(q_zero(), c),
    ensures
        q_lt(q_mul(c, x), q_mul(c, y)) == q_lt(x, y),
{
    lemma_mul_strictly_positive(c.n, c.d);
    assert((c.n * x.n) * (c.d * y.d) == (c.n * c.d) * (x.n * y.d)) by (nonlinear_arith);
    assert((c.n * y.n) * (c.d * x.d) == (c.n * c.d) * (y.n * x.d)) by (nonlinear_arith);
    assert(((c.n * c.d) * (x.n * y.d) < (c.n * c.d) * (y.n * x.d)) == (x.n * y.d < y.n
        * x.d)) by (nonlinear_arith)
        requires
            c.n * c.d > 0,
    ;
}

/// Squaring distributes over multiplication, exactly as written pairs.
pub proof fn lemma_q_sq_mul(c: Q, x: Q)
    ensures
        q_sq(q_mul(c, x)) == q_mul(q_sq(c), q_sq(x)),
{
    assert((c.n * x.n) * (c.n * x.n) == (c.n * c.n) * (x.n * x.n)) by (nonlinear_arith);
    assert((c.d * x.d) * (c.d * x.d) == (c.d * c.d) * (x.d * x.d)) by (nonlinear_arith);
}

/// Scaling distributes over addition, in value.
proof fn lemma_q_scale_add(k: Q, a: Q, b: Q)
    requires
        q_wf(k),
        q_wf(a),
        q_wf(b),
    ensures
        q_eq(q_add(q_mul(k, a), q_mul(k, b)), q_mul(k, q_add(a, b))),
{
    broadcast use vstd::arithmetic::mul::group_mul_properties;

    let l = q_add(q_mul(k, a), q_mul(k, b));
    let r = q_mul(k, q_add(a, b));
    assert(l.n == (k.n * a.n) * (k.d * b.d) + (k.n * b.n) * (k.d * a.d));
    assert((k.n * a.n) * (k.d * b.d) == (k.n * k.d) * (a.n * b.d)) by (nonlinear_arith);
    assert((k.n * b.n) * (k.d * a.d) == (k.n * k.d) * (b.n * a.d)) by (nonlinear_arith);
    assert(l.n == (k.n * k.d) * (a.n * b.d + b.n * a.d));
    assert(l.d == (k.d * a.d) * (k.d * b.d));
    assert(r.n == k.n * (a.n * b.d + b.n * a.d));
    assert(r.d == k.d * (a.d * b.d));
    let s = a.n * b.d + b.n * a.d;
    assert(((k.n * k.d) * s) * (k.d * (a.d * b.d)) == (k.n * s) * ((k.d * a.d) * (k.d * b.d)))
        by (nonlinear_arith);
}

/// Scaling every summand by `k` scales the sum by `k`, in value.
pub proof fn lemma_q_sum_scale(k: Q, s: Seq<Q>, s2: Seq<Q>)
    requires
        q_wf(k),
        forall|t: int| 0 <= t < s.len() ==> q_wf(#[trigger] s[t]),
        s2.len() == s.len(),
        forall|t: int| 0 <= t < s.len() ==> #[trigger] s2[t] == q_mul(k, s[t]),
    ensures
        q_eq(q_sum(s2), q_mul(k, q_sum(s))),
    decreases s.len(),
{
    lemma_q_sum_wf(s);
    lemma_q_add_wf(k, q_sum(s));
    assert forall|t: int| 0 <= t < s2.len() implies q_wf(#[trigger] s2[t]) by {
        lemma_q_add_wf(k, s[t]);
    }
    lemma_q_sum_wf(s2);
    if s.len() == 0 {
        assert(q_sum(s2) == q_zero());
        assert(q_eq(q_zero(), q_mul(k, q_zero()))) by (nonlinear_arith)
            requires
                q_wf(k),
        ;
    } else {
        lemma_q_sum_scale(k, s.drop_last(), s2.drop_last());
        lemma_q_sum_wf(s.drop_last());
        lemma_q_sum_wf(s2.drop_last());
        lemma_q_add_wf(k, q_sum(s.drop_last()));
        lemma_q_add_wf(k, s.last());
        assert(s2.last() == q_mul(k, s.last()));
        lemma_q_add_congr(
            q_sum(s2.drop_last()),
            s2.last(),
            q_mul(k, q_sum(s.drop_last())),
            q_mul(k, s.last()),
        );
        lemma_q_scale_add(k, q_sum(s.drop_last()), s.last());
        lemma_q_add_wf(q_sum(s2.drop_last()), s2.last());
        lemma_q_add_wf(q_mul(k, q_sum(s.drop_last())), q_mul(k, s.last()));
        lemma_q_eq_trans(
            q_sum(s2),
            q_add(q_mul(k, q_sum(s.drop_last())), q_mul(k, s.last())),
            q_mul(k, q_sum(s)),
        );
    }
}

/// A common positive factor of numerator and denominator cancels, in value.
pub proof fn lemma_q_div_cancel(k: Q, a: Q, s: Q)
    requires
        q_wf(k),
        q_wf(a),
        q_wf(s),
        !q_is_zero(k),
        q_nonneg(k),
        !q_is_zero(s),
        q_nonneg(s),
    ensures
        q_eq(q_div(q_mul(k, a), q_mul(k, s)), q_div(a, s)),
{
    broadcast use vstd::arithmetic::mul::group_mul_properties;

    let l = q_div(q_mul(k, a), q_mul(k, s));
    assert(l.n == (k.n * a.n) * (k.d * s.d));
    assert(l.d == (k.d * a.d) * (k.n * s.n));
    assert(((k.n * a.n) * (k.d * s.d)) * (a.d * s.n) == ((k.d * a.d) * (k.n * s.n)) * (a.n * s.d))
        by (nonlinear_arith);
}

/// Sums of pointwise value-equal sequences are equal in value.
pub proof fn lemma_q_sum_congr(s1: Seq<Q>, s2: Seq<Q>)
    requires
        s1.len() == s2.len(),
        forall|t: int| 0 <= t < s1.len() ==> q_wf(#[trigger] s1[t]),
        forall|t: int| 0 <= t < s2.len() ==> q_wf(#[trigger] s2[t]),
        forall|t: int| 0 <= t < s1.len() ==> q_eq(#[trigger] s1[t], s2[t]),
    ensures
        q_eq(q_sum(s1), q_sum(s2)),
    decreases s1.len(),
{
    if s1.len() > 0 {
        lemma_q_sum_congr(s1.drop_last(), s2.drop_last());
        lemma_q_sum_wf(s1.drop_last());
        lemma_q_sum_wf(s2.drop_last());
        lemma_q_add_congr(q_sum(s1.drop_last()), s1.last(), q_sum(s2.drop_last()), s2.last());
    }
}

// ---------------------------------------------------------------------------
// The executable input form.
// ---------------------------------------------------------------------------

/// A plain rational input: the value `num / den`. A denominator of `0` marks
/// a non-finite value, the analogue of an IEEE NaN or infinity, which every
/// validating constructor of this library rejects.
#[derive(Clone, Copy, Debug, PartialEq, Eq, Structural)]
pub struct Number {
    pub num: i64,
    pub den: i64,
}

pub open spec fn number_finite(x: Number) -> bool {
    x.den != 0
}

/// The fraction a finite `Number` denotes, with the sign moved onto the
/// numerator.
pub open spec fn number_q(x: Number) -> Q {
    if x.den > 0 {
        Q { n: x.num as int, d: x.den as int }
    } else {
        Q { n: -(x.num as int), d: -(x.den as int) }
    }
}

impl Number {
    /// The value `num / den`; `den == 0` yields the non-finite marker.
    pub fn new(num: i64, den: i64) -> (r: Number)
        ensures
            r == (Number { num, den }),
    {
        Number { num, den }
    }

    /// The explicit non-finite value.
    pub fn non_finite() -> (r: Number)
        ensures
            !number_finite(r),
    {
        Number { num: 0, den: 0 }
    }

    pub fn is_finite(&self) -> (r: bool)
        ensures
            r == number_finite(*self),
    {
        self.den != 0
    }
}

// ---------------------------------------------------------------------------
// The executable rational.
// ---------------------------------------------------------------------------

/// An exact rational with arbitrary-precision numerator and denominator.
/// The denominator is always positive.
pub struct Rat {
    num: BigInt,
    den: BigInt,
}

impl View for Rat {
    type V = Q;

    closed spec fn view(&self) -> Q {
        Q { n: big_int(self.num), d: big_int(self.den) }
    }
}

impl Rat {
    #[verifier::type_invariant]
    spec fn inv(self) -> bool {
        q_wf(self@)
    }

    pub fn from_i64(v: i64) -> (r: Rat)
        ensures
            r@ == q_int(v as int),
    {
        Rat { num: big_from_i64(v), den: big_from_i64(1) }
    }

    /// The exact value of a finite `Number`.
    pub fn from_number(x: Number) -> (r: Rat)
        requires
            number_finite(x),
        ensures
            r@ == number_q(x),
    {
        let num = big_from_i64(x.num);
        let den = big_from_i64(x.den);
        if x.den > 0 {
            Rat { num, den }
        } else {
            let zero = big_from_i64(0);
            Rat { num: big_sub(&zero, &num), den: big_sub(&zero, &den) }
        }
    }

    pub fn clone_val(&self) -> (r: Rat)
        ensures
            r@ == self@,
    {
        proof {
            use_type_invariant(&*self);
        }
        Rat { num: big_clone(&self.num), den: big_clone(&self.den) }
    }

    pub fn plus(&self, other: &Rat) -> (r: Rat)
        ensures
            r@ == q_add(self@, other@),
    {
        proof {
            use_type_invariant(&*self);
            use_type_invariant(&*other);
            lemma_mul_strictly_positive(self@.d, other@.d);
        }
        let n = big_add(&big_mul(&self.num, &other.den), &big_mul(&other.num, &self.den));
        let d = big_mul(&self.den, &other.den);
        Rat { num: n, den: d }
    }

    pub fn minus(&self, other: &Rat) -> (r: Rat)
        ensures
            r@ == q_sub(self@, other@),
    {
        proof {
            use_type_invariant(&*self);
            use_type_invariant(&*other);
            lemma_mul_strictly_positive(self@.d, other@.d);
        }
        let n = big_sub(&big_mul(&self.num, &other.den), &big_mul(&other.num, &self.den));
        let d = big_mul(&self.den, &other.den);
        Rat { num: n, den: d }
    }

    pub fn times(&self, other: &Rat) -> (r: Rat)
        ensures
            r@ == q_mul(self@, other@),
    {
        proof {
            use_type_invariant(&*self);
            use_type_invariant(&*other);
            lemma_mul_strictly_positive(self@.d, other@.d);
        }
        Rat { num: big_mul(&self.num, &other.num), den: big_mul(&self.den, &other.den) }
    }

    /// Division by a fraction whose value is strictly positive.
    pub fn div_by(&self, other: &Rat) -> (r: Rat)
        requires
            q_nonneg(other@),
            !q_is_zero(other@),
        ensures
            r@ == q_div(self@, other@),
    {
        proof {
            use_type_invariant(&*self);
            use_type_invariant(&*other);
            lemma_mul_strictly_positive(self@.d, other@.n);
        }
        Rat { num: big_mul(&self.num, &other.den), den: big_mul(&self.den, &other.num) }
    }

    pub fn lt(&self, other: &Rat) -> (r: bool)
        ensures
            r == q_lt(self@, other@),
    {
        big_lt(&big_mul(&self.num, &other.den), &big_mul(&other.num, &self.den))
    }

    pub fn eq_val(&self, other: &Rat) -> (r: bool)
        ensures
            r == q_eq(self@, other@),
    {
        big_eq(&big_mul(&self.num, &other.den), &big_mul(&other.num, &self.den))
    }

    pub fn is_zero(&self) -> (r: bool)
        ensures
            r == q_is_zero(self@),
    {
        let zero = big_from_i64(0);
        big_eq(&self.num, &zero)
    }

    pub fn is_positive(&self) -> (r: bool)
        ensures
            r == q_lt(q_zero(), self@),
    {
        proof {
            use_type_invariant(&*self);
        }
        let zero = big_from_i64(0);
        big_lt(&zero, &self.num)
    }

    /// The numerator, for callers that take the exact value out.
    pub fn numerator(&self) -> (r: &BigInt)
        ensures
            big_int(*r) == self@.n,
    {
        &self.num
    }

    /// The denominator; always positive.
    pub fn denominator(&self) -> (r: &BigInt)
        ensures
            big_int(*r) == self@.d,
            self@.d > 0,
    {
        proof {
            use_type_invariant(&*self);
        }
        &self.den
    }
}

} // verus!
