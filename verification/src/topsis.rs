//! The TOPSIS scoring engine.
//!
//! Alternatives (rows of a [`Matrix`]) are scored against weighted criteria:
//! each criterion column is normalized by its Euclidean norm, scaled by the
//! magnitude of its weight, and compared against the per-column ideal (best)
//! and anti-ideal (worst) values, where the weight's sign decides whether the
//! maximum (benefit) or the minimum (cost) is best. An alternative's score is
//! its relative closeness `d_worst / (d_best + d_worst)` to the anti-ideal
//! point, and the ranking sorts alternatives by descending score, ties broken
//! by ascending index.
//!
//! All of it is computed exactly: the squared weighted normalized distances
//! `d_best^2` and `d_worst^2` are rational, and every comparison of scores is
//! decided by cross-multiplication of those rationals, so the ranking is the
//! mathematical one, free of rounding.

use crate::rational::{
    lemma_q_add_wf, lemma_q_div_nonneg, lemma_q_eq_lt_compat, lemma_q_eq_trans, lemma_q_lt_trans,
    lemma_q_mul_nonneg, lemma_q_sq_nonneg, lemma_q_sum_nonneg, number_finite, number_q, q_add,
    q_div, q_eq, q_is_zero, q_lt, q_mul, q_nonneg, q_sq, q_sub, q_sum, q_wf, q_zero, Number, Q,
    Rat,
};
use vstd::prelude::*;

verus! {

/// Everything a construction or scoring call can reject.
#[derive(Clone, Copy, Debug, PartialEq, Eq, Structural)]
pub enum Error {
    /// A criterion's weight is zero or not finite.
    InvalidCriterion,
    /// A criteria collection was constructed with no criterion.
    EmptyCriteria,
    /// A matrix was constructed with no alternative.
    EmptyMatrix,
    /// A matrix entry is not finite.
    NonFiniteValue,
    /// The matrix column count does not equal the criteria length.
    DimensionMismatch,
}

// ---------------------------------------------------------------------------
// Criterion and Criteria.
// ---------------------------------------------------------------------------

/// An immutable (name, weight) pair. The weight is non-zero; its sign gives
/// the direction (positive: higher raw values are better; negative: lower are
/// better) and its magnitude the relative importance.
pub struct Criterion {
    name: String,
    weight: Rat,
}

impl Criterion {
    pub closed spec fn spec_name(self) -> Seq<char> {
        self.name@
    }

    pub closed spec fn spec_weight(self) -> Q {
        self.weight@
    }

    #[verifier::type_invariant]
    spec fn inv(self) -> bool {
        q_wf(self.weight@) && !q_is_zero(self.weight@)
    }

    /// A criterion with the given diagnostic name and weight. Rejects a
    /// weight that is non-finite or zero, since such a weight encodes
    /// neither a direction nor an importance.
    pub fn new(name: String, weight: Number) -> (r: Result<Criterion, Error>)
        ensures
            r is Ok <==> number_finite(weight) && !q_is_zero(number_q(weight)),
            r is Err ==> r == Err::<Criterion, Error>(Error::InvalidCriterion),
            r is Ok ==> (r->Ok_0).spec_name() == name@ && (r->Ok_0).spec_weight() == number_q(
                weight,
            ),
    {
        if !weight.is_finite() || weight.num == 0 {
            Err(Error::InvalidCriterion)
        } else {
            Ok(Criterion { name, weight: Rat::from_number(weight) })
        }
    }
}

/// Whether every element of a criterion sequence was individually valid.
pub open spec fn all_ok(s: Seq<Result<Criterion, Error>>) -> bool {
    forall|i: int| 0 <= i < s.len() ==> (#[trigger] s[i]) is Ok
}

/// The first error in a criterion sequence that holds one.
pub open spec fn first_err(s: Seq<Result<Criterion, Error>>) -> Error
    decreases s.len(),
{
    if s.len() == 0 {
        Error::EmptyCriteria
    } else if s[0] is Err {
        s[0]->Err_0
    } else {
        first_err(s.drop_first())
    }
}

/// An ordered, non-empty collection of criteria, validated as a whole at
/// construction. Its length defines the column count any matrix scored
/// against it must have.
pub struct Criteria {
    items: Vec<Criterion>,
}

impl Criteria {
    pub closed spec fn spec_items(self) -> Seq<Criterion> {
        self.items@
    }

    /// The criterion weights, in column order.
    pub open spec fn weights(self) -> Seq<Q> {
        self.spec_items().map_values(|c: Criterion| c.spec_weight())
    }

    #[verifier::type_invariant]
    spec fn inv(self) -> bool {
        self.items@.len() >= 1 && forall|j: int|
            0 <= j < self.items@.len() ==> q_wf((#[trigger] self.items@[j]).spec_weight())
                && !q_is_zero(self.items@[j].spec_weight())
    }

    /// Collects individually validated criteria. The first invalid element's
    /// error is propagated; an empty collection is rejected.
    pub fn new(criteria: Vec<Result<Criterion, Error>>) -> (r: Result<Criteria, Error>)
        ensures
            r is Ok <==> criteria@.len() > 0 && all_ok(criteria@),
            criteria@.len() == 0 ==> r == Err::<Criteria, Error>(Error::EmptyCriteria),
            criteria@.len() > 0 && !all_ok(criteria@) ==> r == Err::<Criteria, Error>(
                first_err(criteria@),
            ),
            r is Ok ==> (r->Ok_0).spec_items().len() == criteria@.len() && forall|j: int|
                0 <= j < criteria@.len() ==> (r->Ok_0).spec_items()[j] == (
                #[trigger] criteria@[j])->Ok_0,
    {
        let ghost orig = criteria@;
        let mut pending = criteria;
        let mut items: Vec<Criterion> = Vec::new();
        while pending.len() > 0
            invariant
                orig == criteria@,
                items@.len() + pending@.len() == orig.len(),
                forall|t: int|
                    0 <= t < pending@.len() ==> pending@[t] == orig[t + items@.len()],
                forall|t: int|
                    0 <= t < items@.len() ==> orig[t] is Ok && items@[t] == (
                    #[trigger] orig[t])->Ok_0,
                forall|t: int|
                    0 <= t < items@.len() ==> q_wf((#[trigger] items@[t]).spec_weight())
                        && !q_is_zero(items@[t].spec_weight()),
            decreases pending@.len(),
        {
            let ghost k = items@.len() as int;
            assert(pending@[0] == orig[k]);
            let item = pending.remove(0);
            match item {
                Ok(c) => {
                    proof {
                        use_type_invariant(&c);
                    }
                    items.push(c);
                },
                Err(e) => {
                    proof {
                        lemma_first_err_at(orig, k);
                    }
                    return Err(e);
                },
            }
        }
        if items.len() == 0 {
            return Err(Error::EmptyCriteria);
        }
        Ok(Criteria { items })
    }

    /// The number of criteria.
    pub fn len(&self) -> (r: usize)
        ensures
            r == self.weights().len(),
    {
        self.items.len()
    }
}

/// If everything before position `k` is valid and position `k` is not, then
/// the first error of the sequence is the one at `k`.
proof fn lemma_first_err_at(s: Seq<Result<Criterion, Error>>, k: int)
    requires
        0 <= k < s.len(),
        s[k] is Err,
        forall|t: int| 0 <= t < k ==> (#[trigger] s[t]) is Ok,
    ensures
        !all_ok(s),
        first_err(s) == s[k]->Err_0,
    decreases k,
{
    if k == 0 {
    } else {
        lemma_first_err_at(s.drop_first(), k - 1);
        assert(s.drop_first()[k - 1] == s[k]);
    }
}

// ---------------------------------------------------------------------------
// Matrix.
// ---------------------------------------------------------------------------

pub open spec fn all_finite(rows: Seq<Vec<Number>>) -> bool {
    forall|i: int, j: int|
        0 <= i < rows.len() && 0 <= j < rows[i]@.len() ==> number_finite(#[trigger] rows[i]@[j])
}

pub open spec fn uniform_width(rows: Seq<Vec<Number>>) -> bool {
    forall|i: int| 0 <= i < rows.len() ==> (#[trigger] rows[i])@.len() == rows[0]@.len()
}

/// An ordered, non-empty collection of alternatives, each a row of finite
/// values of one shared length (the column count).
pub struct Matrix {
    rows: Vec<Vec<Rat>>,
}

impl View for Matrix {
    type V = Seq<Seq<Q>>;

    closed spec fn view(&self) -> Seq<Seq<Q>> {
        self.rows@.map_values(|row: Vec<Rat>| row@.map_values(|x: Rat| x@))
    }
}

impl Matrix {
    /// The shared row length.
    pub closed spec fn spec_width(self) -> nat {
        self.rows@[0]@.len()
    }

    #[verifier::type_invariant]
    spec fn inv(self) -> bool {
        self.rows@.len() >= 1 && (forall|i: int|
            0 <= i < self.rows@.len() ==> (#[trigger] self.rows@[i])@.len() == self.spec_width())
            && (forall|i: int, j: int|
            0 <= i < self.rows@.len() && 0 <= j < self.spec_width() ==> q_wf(
                #[trigger] self.rows@[i]@[j]@,
            ))
    }

    /// A matrix from rows of plain values. An empty collection, a non-finite
    /// entry, and rows of differing lengths are each rejected; raggedness is
    /// a dimension error, detected at construction because the column count
    /// is fixed here.
    pub fn new(rows: Vec<Vec<Number>>) -> (r: Result<Matrix, Error>)
        ensures
            r is Ok <==> rows@.len() > 0 && all_finite(rows@) && uniform_width(rows@),
            rows@.len() == 0 ==> r == Err::<Matrix, Error>(Error::EmptyMatrix),
            rows@.len() > 0 && !all_finite(rows@) ==> r == Err::<Matrix, Error>(
                Error::NonFiniteValue,
            ),
            rows@.len() > 0 && all_finite(rows@) && !uniform_width(rows@) ==> r == Err::<
                Matrix,
                Error,
            >(Error::DimensionMismatch),
            r is Ok ==> (r->Ok_0)@.len() == rows@.len() && (r->Ok_0).spec_width()
                == rows@[0]@.len() && forall|i: int, j: int|
                0 <= i < rows@.len() && 0 <= j < rows@[i]@.len() ==> (r->Ok_0)@[i][j] == number_q(
                    #[trigger] rows@[i]@[j],
                ),
    {
        if rows.len() == 0 {
            return Err(Error::EmptyMatrix);
        }
        let mut i: usize = 0;
        while i < rows.len()
            invariant
                i <= rows@.len(),
                forall|ii: int, j: int|
                    0 <= ii < i && 0 <= j < rows@[ii]@.len() ==> number_finite(
                        #[trigger] rows@[ii]@[j],
                    ),
            decreases rows@.len() - i,
        {
            let row = &rows[i];
            let mut j: usize = 0;
            while j < row.len()
                invariant
                    j <= row@.len(),
                    row == &rows[i as int],
                    i < rows@.len(),
                    forall|jj: int| 0 <= jj < j ==> number_finite(#[trigger] row@[jj]),
                decreases row@.len() - j,
            {
                if !row[j].is_finite() {
                    return Err(Error::NonFiniteValue);
                }
                j += 1;
            }
            i += 1;
        }
        let width = rows[0].len();
        let mut i: usize = 1;
        while i < rows.len()
            invariant
                1 <= i <= rows@.len(),
                rows@.len() > 0,
                all_finite(rows@),
                width == rows@[0]@.len(),
                forall|ii: int| 0 <= ii < i ==> (#[trigger] rows@[ii])@.len() == width,
            decreases rows@.len() - i,
        {
            if rows[i].len() != width {
                return Err(Error::DimensionMismatch);
            }
            i += 1;
        }
        let mut out: Vec<Vec<Rat>> = Vec::new();
        let mut i: usize = 0;
        while i < rows.len()
            invariant
                i <= rows@.len(),
                rows@.len() > 0,
                all_finite(rows@),
                width == rows@[0]@.len(),
                forall|ii: int| 0 <= ii < rows@.len() ==> (#[trigger] rows@[ii])@.len() == width,
                out@.len() == i,
                forall|ii: int| 0 <= ii < i ==> (#[trigger] out@[ii])@.len() == width,
                forall|ii: int, j: int|
                    0 <= ii < i && 0 <= j < width ==> #[trigger] out@[ii]@[j]@ == number_q(
                        rows@[ii]@[j],
                    ) && q_wf(out@[ii]@[j]@),
            decreases rows@.len() - i,
        {
            let row = &rows[i];
            let mut conv: Vec<Rat> = Vec::new();
            let mut j: usize = 0;
            while j < row.len()
                invariant
                    j <= row@.len(),
                    row == &rows[i as int],
                    i < rows@.len(),
                    all_finite(rows@),
                    conv@.len() == j,
                    forall|jj: int|
                        0 <= jj < j ==> #[trigger] conv@[jj]@ == number_q(row@[jj]) && q_wf(
                            conv@[jj]@,
                        ),
                decreases row@.len() - j,
            {
                let x = Rat::from_number(row[j]);
                proof {
                    assert(q_wf(x@));
                }
                conv.push(x);
                j += 1;
            }
            out.push(conv);
            i += 1;
        }
        let m = Matrix { rows: out };
        proof {
            assert(forall|ii: int|
                0 <= ii < m.rows@.len() ==> (#[trigger] m@[ii]).len() == m.rows@[ii]@.len());
        }
        Ok(m)
    }
}


// ---------------------------------------------------------------------------
// The mathematical model of the scoring pipeline.
// ---------------------------------------------------------------------------

/// A well-formed decision matrix: at least one alternative, every row of
/// width `n`, every entry a well-formed fraction.
pub open spec fn m_wf(m: Seq<Seq<Q>>, n: nat) -> bool {
    m.len() >= 1 && (forall|i: int| 0 <= i < m.len() ==> (#[trigger] m[i]).len() == n) && (forall|
        i: int,
        j: int,
    |
        0 <= i < m.len() && 0 <= j < n ==> q_wf(#[trigger] m[i][j]))
}

/// Well-formed weights: at least one, each a well-formed non-zero fraction.
pub open spec fn w_wf(w: Seq<Q>) -> bool {
    w.len() >= 1 && forall|j: int|
        0 <= j < w.len() ==> q_wf(#[trigger] w[j]) && !q_is_zero(w[j])
}

/// The squares of column `j`, one per alternative.
pub open spec fn col_terms(m: Seq<Seq<Q>>, j: int) -> Seq<Q> {
    Seq::new(m.len(), |i: int| q_sq(m[i][j]))
}

/// The squared Euclidean norm of column `j`.
pub open spec fn col_sumsq(m: Seq<Seq<Q>>, j: int) -> Q {
    q_sum(col_terms(m, j))
}

/// The maximum (or minimum) of column `j`, scanned in row order.
pub open spec fn col_extreme(m: Seq<Seq<Q>>, j: int, take_max: bool) -> Q
    decreases m.len(),
{
    if m.len() <= 1 {
        m[0][j]
    } else {
        let prev = col_extreme(m.drop_last(), j, take_max);
        let x = m[m.len() - 1][j];
        if take_max {
            if q_lt(prev, x) {
                x
            } else {
                prev
            }
        } else {
            if q_lt(x, prev) {
                x
            } else {
                prev
            }
        }
    }
}

/// A positive weight marks a benefit criterion: higher raw values are better.
pub open spec fn is_benefit(w: Seq<Q>, j: int) -> bool {
    q_lt(q_zero(), w[j])
}

/// The ideal (best) raw value of column `j`: the maximum for a benefit
/// criterion, the minimum for a cost criterion. Scaling a column by the
/// positive factor `|w_j| / norm_j` keeps its order, so the extreme of the
/// raw column is the extreme of the weighted normalized one.
pub open spec fn best_q(m: Seq<Seq<Q>>, w: Seq<Q>, j: int) -> Q {
    col_extreme(m, j, is_benefit(w, j))
}

/// The anti-ideal (worst) raw value of column `j`: the opposite extreme.
pub open spec fn worst_q(m: Seq<Seq<Q>>, w: Seq<Q>, j: int) -> Q {
    col_extreme(m, j, !is_benefit(w, j))
}

/// Column `j`'s contribution to the squared distance of alternative `i` from
/// the ideal (`to_best`) or anti-ideal point: `w_j^2 (x_ij - e_j)^2 / S_j`,
/// where `S_j` is the squared column norm. A column whose norm is zero
/// contributes nothing: its normalized value is defined as `0 / 0 == 0`.
pub open spec fn dist_term(m: Seq<Seq<Q>>, w: Seq<Q>, j: int, i: int, to_best: bool) -> Q {
    let s = col_sumsq(m, j);
    if q_is_zero(s) {
        q_zero()
    } else {
        let e = if to_best {
            best_q(m, w, j)
        } else {
            worst_q(m, w, j)
        };
        q_div(q_mul(q_sq(w[j]), q_sq(q_sub(m[i][j], e))), s)
    }
}

pub open spec fn dist_terms(m: Seq<Seq<Q>>, w: Seq<Q>, i: int, to_best: bool) -> Seq<Q> {
    Seq::new(w.len(), |j: int| dist_term(m, w, j, i, to_best))
}

/// The exact squared distances of one alternative to the ideal and anti-ideal
/// points. The closeness score is `sqrt(dw2) / (sqrt(db2) + sqrt(dw2))`, or
/// `0` when both distances are zero; every comparison of scores is decided
/// exactly on these squares.
pub ghost struct ScoreQ {
    pub db2: Q,
    pub dw2: Q,
}

pub open spec fn sq_wf(s: ScoreQ) -> bool {
    q_wf(s.db2) && q_wf(s.dw2) && q_nonneg(s.db2) && q_nonneg(s.dw2)
}

/// The squared distances of alternative `i`.
pub open spec fn score_at(m: Seq<Seq<Q>>, w: Seq<Q>, i: int) -> ScoreQ {
    ScoreQ { db2: q_sum(dist_terms(m, w, i, true)), dw2: q_sum(dist_terms(m, w, i, false)) }
}

pub open spec fn score_seq(m: Seq<Seq<Q>>, w: Seq<Q>) -> Seq<ScoreQ> {
    Seq::new(m.len(), |i: int| score_at(m, w, i))
}

/// A closeness score is zero exactly when the distance to the anti-ideal
/// point is zero; that covers the degenerate alternative equal to both
/// points, whose score is defined as zero.
pub open spec fn score_is_zero(s: ScoreQ) -> bool {
    q_is_zero(s.dw2)
}

/// The ratio `db2 / dw2` of a non-zero score; scores order inversely to it,
/// since the score `1 / (1 + sqrt(db2 / dw2))` strictly falls as it grows.
pub open spec fn score_ratio(s: ScoreQ) -> Q {
    q_div(s.db2, s.dw2)
}

/// Exact order on closeness scores.
pub open spec fn score_lt(a: ScoreQ, b: ScoreQ) -> bool {
    if score_is_zero(a) {
        !score_is_zero(b)
    } else if score_is_zero(b) {
        false
    } else {
        q_lt(score_ratio(b), score_ratio(a))
    }
}

/// Exact equality of closeness scores.
pub open spec fn score_eq(a: ScoreQ, b: ScoreQ) -> bool {
    if score_is_zero(a) {
        score_is_zero(b)
    } else if score_is_zero(b) {
        false
    } else {
        q_eq(score_ratio(a), score_ratio(b))
    }
}

/// The ranking order: alternative `a` comes before `b` when its score is
/// strictly higher, or the scores tie and `a` has the smaller index.
pub open spec fn rank_before(ss: Seq<ScoreQ>, a: int, b: int) -> bool {
    score_lt(ss[b], ss[a]) || (score_eq(ss[a], ss[b]) && a < b)
}

/// What it means for `p` to rank the alternatives scored by `ss`: a
/// permutation of the indices `0 .. ss.len()`, sorted by descending score
/// with exact ties broken by ascending index.
pub open spec fn ranking_of(ss: Seq<ScoreQ>, p: Seq<usize>) -> bool {
    &&& p.len() == ss.len()
    &&& forall|k: int| 0 <= k < ss.len() ==> #[trigger] p.contains(k as usize)
    &&& forall|t: int| 0 <= t < p.len() ==> (#[trigger] p[t]) < ss.len()
    &&& p.no_duplicates()
    &&& forall|a: int, b: int| 0 <= a < b < p.len() ==> rank_before(ss, p[a] as int, p[b] as int)
}

/// The ranking a (matrix, criteria) pair determines.
pub open spec fn valid_ranking(m: Seq<Seq<Q>>, w: Seq<Q>, p: Seq<usize>) -> bool {
    ranking_of(score_seq(m, w), p)
}

// ---------------------------------------------------------------------------
// The score order is a total order.
// ---------------------------------------------------------------------------

pub proof fn lemma_score_trichotomy(a: ScoreQ, b: ScoreQ)
    requires
        sq_wf(a),
        sq_wf(b),
    ensures
        score_lt(a, b) || score_eq(a, b) || score_lt(b, a),
        score_lt(a, b) ==> !score_eq(a, b) && !score_lt(b, a),
        score_eq(a, b) ==> !score_lt(a, b) && !score_lt(b, a),
        score_eq(a, b) == score_eq(b, a),
{
    if !score_is_zero(a) && !score_is_zero(b) {
        lemma_q_div_nonneg(a.db2, a.dw2);
        lemma_q_div_nonneg(b.db2, b.dw2);
    }
}

pub proof fn lemma_score_lt_trans(a: ScoreQ, b: ScoreQ, c: ScoreQ)
    requires
        sq_wf(a),
        sq_wf(b),
        sq_wf(c),
        score_lt(a, b),
        score_lt(b, c),
    ensures
        score_lt(a, c),
{
    if !score_is_zero(a) {
        lemma_q_div_nonneg(a.db2, a.dw2);
        lemma_q_div_nonneg(b.db2, b.dw2);
        lemma_q_div_nonneg(c.db2, c.dw2);
        lemma_q_lt_trans(score_ratio(c), score_ratio(b), score_ratio(a));
    }
}

pub proof fn lemma_score_eq_lt_compat(a: ScoreQ, b: ScoreQ, c: ScoreQ)
    requires
        sq_wf(a),
        sq_wf(b),
        sq_wf(c),
        score_eq(a, b),
    ensures
        score_lt(a, c) == score_lt(b, c),
        score_lt(c, a) == score_lt(c, b),
        score_eq(a, c) == score_eq(b, c),
{
    if !score_is_zero(a) && !score_is_zero(c) {
        lemma_q_div_nonneg(a.db2, a.dw2);
        lemma_q_div_nonneg(b.db2, b.dw2);
        lemma_q_div_nonneg(c.db2, c.dw2);
        lemma_q_eq_lt_compat(score_ratio(a), score_ratio(b), score_ratio(c));
    }
}

pub proof fn lemma_score_eq_trans(a: ScoreQ, b: ScoreQ, c: ScoreQ)
    requires
        sq_wf(a),
        sq_wf(b),
        sq_wf(c),
        score_eq(a, b),
        score_eq(b, c),
    ensures
        score_eq(a, c),
{
    if !score_is_zero(a) {
        lemma_q_div_nonneg(a.db2, a.dw2);
        lemma_q_div_nonneg(b.db2, b.dw2);
        lemma_q_div_nonneg(c.db2, c.dw2);
        lemma_q_eq_trans(score_ratio(a), score_ratio(b), score_ratio(c));
    }
}

/// The ranking order never puts an alternative before itself.
pub proof fn lemma_rank_irrefl(ss: Seq<ScoreQ>, a: int)
    requires
        0 <= a < ss.len(),
        sq_wf(ss[a]),
    ensures
        !rank_before(ss, a, a),
{
    lemma_score_trichotomy(ss[a], ss[a]);
}

/// Any two distinct alternatives are ordered one way or the other.
pub proof fn lemma_rank_total(ss: Seq<ScoreQ>, a: int, b: int)
    requires
        0 <= a < ss.len(),
        0 <= b < ss.len(),
        a != b,
        sq_wf(ss[a]),
        sq_wf(ss[b]),
    ensures
        rank_before(ss, a, b) || rank_before(ss, b, a),
        !(rank_before(ss, a, b) && rank_before(ss, b, a)),
{
    lemma_score_trichotomy(ss[a], ss[b]);
}

/// The ranking order is transitive.
pub proof fn lemma_rank_trans(ss: Seq<ScoreQ>, a: int, b: int, c: int)
    requires
        0 <= a < ss.len(),
        0 <= b < ss.len(),
        0 <= c < ss.len(),
        sq_wf(ss[a]),
        sq_wf(ss[b]),
        sq_wf(ss[c]),
        rank_before(ss, a, b),
        rank_before(ss, b, c),
    ensures
        rank_before(ss, a, c),
{
    if score_lt(ss[b], ss[a]) && score_lt(ss[c], ss[b]) {
        lemma_score_lt_trans(ss[c], ss[b], ss[a]);
    } else if score_lt(ss[b], ss[a]) {
        lemma_score_eq_lt_compat(ss[b], ss[c], ss[a]);
    } else if score_lt(ss[c], ss[b]) {
        lemma_score_eq_lt_compat(ss[a], ss[b], ss[c]);
        lemma_score_trichotomy(ss[a], ss[b]);
    } else {
        lemma_score_eq_trans(ss[a], ss[b], ss[c]);
        lemma_score_trichotomy(ss[a], ss[b]);
        lemma_score_trichotomy(ss[b], ss[c]);
    }
}

// ---------------------------------------------------------------------------
// Well-formedness of the pipeline values.
// ---------------------------------------------------------------------------

/// The squared norm of a column is a well-formed, non-negative fraction.
pub proof fn lemma_col_sumsq_nonneg(m: Seq<Seq<Q>>, n: nat, j: int)
    requires
        m_wf(m, n),
        0 <= j < n,
    ensures
        q_wf(col_sumsq(m, j)),
        q_nonneg(col_sumsq(m, j)),
{
    assert forall|t: int| 0 <= t < col_terms(m, j).len() implies q_wf(#[trigger] col_terms(m, j)[t])
        && q_nonneg(col_terms(m, j)[t]) by {
        lemma_q_sq_nonneg(m[t][j]);
    }
    lemma_q_sum_nonneg(col_terms(m, j));
}

/// A column extreme is one of the column's entries, hence well-formed.
pub proof fn lemma_col_extreme_wf(m: Seq<Seq<Q>>, n: nat, j: int, take_max: bool)
    requires
        m_wf(m, n),
        0 <= j < n,
    ensures
        q_wf(col_extreme(m, j, take_max)),
        exists|i: int| 0 <= i < m.len() && col_extreme(m, j, take_max) == m[i][j],
    decreases m.len(),
{
    if m.len() <= 1 {
        assert(col_extreme(m, j, take_max) == m[0][j]);
    } else {
        assert(m_wf(m.drop_last(), n));
        lemma_col_extreme_wf(m.drop_last(), n, j, take_max);
        let prev = col_extreme(m.drop_last(), j, take_max);
        if col_extreme(m, j, take_max) == prev {
            let i0 = choose|i: int|
                0 <= i < m.drop_last().len() && col_extreme(m.drop_last(), j, take_max)
                    == m.drop_last()[i][j];
            assert(col_extreme(m, j, take_max) == m[i0][j]);
        } else {
            assert(col_extreme(m, j, take_max) == m[m.len() - 1][j]);
        }
    }
}

/// Each distance contribution is a well-formed, non-negative fraction.
pub proof fn lemma_dist_term_wf(m: Seq<Seq<Q>>, w: Seq<Q>, j: int, i: int, to_best: bool)
    requires
        m_wf(m, w.len()),
        w_wf(w),
        0 <= j < w.len(),
        0 <= i < m.len(),
    ensures
        q_wf(dist_term(m, w, j, i, to_best)),
        q_nonneg(dist_term(m, w, j, i, to_best)),
{
    let s = col_sumsq(m, j);
    lemma_col_sumsq_nonneg(m, w.len(), j);
    if !q_is_zero(s) {
        let e = if to_best {
            best_q(m, w, j)
        } else {
            worst_q(m, w, j)
        };
        lemma_col_extreme_wf(m, w.len(), j, if to_best {
            is_benefit(w, j)
        } else {
            !is_benefit(w, j)
        });
        lemma_q_add_wf(m[i][j], e);
        lemma_q_sq_nonneg(q_sub(m[i][j], e));
        lemma_q_sq_nonneg(w[j]);
        lemma_q_mul_nonneg(q_sq(w[j]), q_sq(q_sub(m[i][j], e)));
        lemma_q_div_nonneg(q_mul(q_sq(w[j]), q_sq(q_sub(m[i][j], e))), s);
    }
}

/// Squared distances are well-formed and non-negative.
pub proof fn lemma_score_at_wf(m: Seq<Seq<Q>>, w: Seq<Q>, i: int)
    requires
        m_wf(m, w.len()),
        w_wf(w),
        0 <= i < m.len(),
    ensures
        sq_wf(score_at(m, w, i)),
{
    assert forall|t: int| 0 <= t < dist_terms(m, w, i, true).len() implies q_wf(
        #[trigger] dist_terms(m, w, i, true)[t],
    ) && q_nonneg(dist_terms(m, w, i, true)[t]) by {
        lemma_dist_term_wf(m, w, t, i, true);
    }
    assert forall|t: int| 0 <= t < dist_terms(m, w, i, false).len() implies q_wf(
        #[trigger] dist_terms(m, w, i, false)[t],
    ) && q_nonneg(dist_terms(m, w, i, false)[t]) by {
        lemma_dist_term_wf(m, w, t, i, false);
    }
    lemma_q_sum_nonneg(dist_terms(m, w, i, true));
    lemma_q_sum_nonneg(dist_terms(m, w, i, false));
}


// ---------------------------------------------------------------------------
// Scores and the scoring engine.
// ---------------------------------------------------------------------------

/// The exact closeness data of one alternative: the squared weighted
/// normalized distances to the ideal and to the anti-ideal point. The
/// closeness score is `sqrt(dw2) / (sqrt(db2) + sqrt(dw2))` (zero when both
/// distances are zero); comparing two scores needs no square root, so the
/// order of scores is decided exactly here.
pub struct Score {
    db_sq: Rat,
    dw_sq: Rat,
}

impl View for Score {
    type V = ScoreQ;

    closed spec fn view(&self) -> ScoreQ {
        ScoreQ { db2: self.db_sq@, dw2: self.dw_sq@ }
    }
}

impl Score {
    #[verifier::type_invariant]
    spec fn inv(self) -> bool {
        sq_wf(self@)
    }

    /// The squared distance to the ideal point.
    pub fn d_best_sq(&self) -> (r: &Rat)
        ensures
            r@ == self@.db2,
            q_wf(r@),
            q_nonneg(r@),
    {
        proof {
            use_type_invariant(&*self);
        }
        &self.db_sq
    }

    /// The squared distance to the anti-ideal point.
    pub fn d_worst_sq(&self) -> (r: &Rat)
        ensures
            r@ == self@.dw2,
            q_wf(r@),
            q_nonneg(r@),
    {
        proof {
            use_type_invariant(&*self);
        }
        &self.dw_sq
    }

    /// Whether the closeness score is zero.
    pub fn is_zero_score(&self) -> (r: bool)
        ensures
            r == score_is_zero(self@),
    {
        self.dw_sq.is_zero()
    }

    /// Whether this alternative's score is strictly below `other`'s.
    pub fn ranks_below(&self, other: &Score) -> (r: bool)
        ensures
            r == score_lt(self@, other@),
    {
        proof {
            use_type_invariant(&*self);
            use_type_invariant(&*other);
        }
        if self.dw_sq.is_zero() {
            !other.dw_sq.is_zero()
        } else if other.dw_sq.is_zero() {
            false
        } else {
            let ra = self.db_sq.div_by(&self.dw_sq);
            let rb = other.db_sq.div_by(&other.dw_sq);
            rb.lt(&ra)
        }
    }

    /// Whether the two scores are exactly equal.
    pub fn score_equals(&self, other: &Score) -> (r: bool)
        ensures
            r == score_eq(self@, other@),
    {
        proof {
            use_type_invariant(&*self);
            use_type_invariant(&*other);
        }
        if self.dw_sq.is_zero() {
            other.dw_sq.is_zero()
        } else if other.dw_sq.is_zero() {
            false
        } else {
            let ra = self.db_sq.div_by(&self.dw_sq);
            let rb = other.db_sq.div_by(&other.dw_sq);
            ra.eq_val(&rb)
        }
    }
}

/// Scores every alternative of `matrix` against `criteria`: the TOPSIS
/// pipeline of column normalization, weighting, ideal and anti-ideal points,
/// and squared distances, computed exactly. Fails only when the matrix
/// column count does not equal the criteria length.
#[verifier::loop_isolation(false)]
pub fn score_alternatives(matrix: &Matrix, criteria: &Criteria) -> (r: Result<Vec<Score>, Error>)
    ensures
        r is Ok <==> matrix.spec_width() == criteria.weights().len(),
        r is Err ==> r == Err::<Vec<Score>, Error>(Error::DimensionMismatch),
        r is Ok ==> ((r->Ok_0)@.len() == matrix@.len() && forall|i: int|
            0 <= i < matrix@.len() ==> (#[trigger] (r->Ok_0)@[i])@ == score_at(
                matrix@,
                criteria.weights(),
                i,
            )),
{
    proof {
        use_type_invariant(matrix);
        use_type_invariant(criteria);
    }
    let ghost mv = matrix@;
    let ghost w = criteria.weights();
    let m = matrix.rows.len();
    let n = matrix.rows[0].len();
    if n != criteria.items.len() {
        return Err(Error::DimensionMismatch);
    }
    proof {
        assert(m_wf(mv, n as nat));
        assert(w_wf(w));
    }
    // Per column: squared norm, ideal and anti-ideal raw values.
    let mut sums: Vec<Rat> = Vec::new();
    let mut bests: Vec<Rat> = Vec::new();
    let mut worsts: Vec<Rat> = Vec::new();
    let mut j: usize = 0;
    while j < n
        invariant
            j <= n,
            sums@.len() == j,
            bests@.len() == j,
            worsts@.len() == j,
            forall|t: int| 0 <= t < j ==> (#[trigger] sums@[t])@ == col_sumsq(mv, t),
            forall|t: int| 0 <= t < j ==> (#[trigger] bests@[t])@ == best_q(mv, w, t),
            forall|t: int| 0 <= t < j ==> (#[trigger] worsts@[t])@ == worst_q(mv, w, t),
        decreases n - j,
    {
        let mut acc = Rat::from_i64(0);
        let mut i: usize = 0;
        while i < m
            invariant
                i <= m,
                acc@ == q_sum(col_terms(mv, j as int).take(i as int)),
            decreases m - i,
        {
            let x = &matrix.rows[i][j];
            let acc2 = acc.plus(&x.times(x));
            proof {
                let ct = col_terms(mv, j as int);
                assert(ct.take(i + 1).drop_last() =~= ct.take(i as int));
                assert(ct.take(i + 1).last() == q_sq(mv[i as int][j as int]));
            }
            acc = acc2;
            i += 1;
        }
        proof {
            assert(col_terms(mv, j as int).take(m as int) =~= col_terms(mv, j as int));
        }
        let benefit = criteria.items[j].weight.is_positive();
        proof {
            assert(w[j as int] == criteria.items@[j as int].spec_weight());
            assert(benefit == is_benefit(w, j as int));
        }
        let mut best = matrix.rows[0][j].clone_val();
        let mut worst = matrix.rows[0][j].clone_val();
        proof {
            assert(mv.take(1)[0] == mv[0]);
        }
        let mut i2: usize = 1;
        while i2 < m
            invariant
                1 <= i2 <= m,
                best@ == col_extreme(mv.take(i2 as int), j as int, is_benefit(w, j as int)),
                worst@ == col_extreme(mv.take(i2 as int), j as int, !is_benefit(w, j as int)),
            decreases m - i2,
        {
            let ghost prevb = best@;
            let ghost prevw = worst@;
            let x = &matrix.rows[i2][j];
            if benefit {
                if best.lt(x) {
                    best = x.clone_val();
                }
                if x.lt(&worst) {
                    worst = x.clone_val();
                }
            } else {
                if x.lt(&best) {
                    best = x.clone_val();
                }
                if worst.lt(x) {
                    worst = x.clone_val();
                }
            }
            proof {
                let pre = mv.take(i2 + 1);
                assert(pre.drop_last() =~= mv.take(i2 as int));
                assert(pre[pre.len() - 1] == mv[i2 as int]);
            }
            i2 += 1;
        }
        proof {
            assert(mv.take(m as int) =~= mv);
        }
        sums.push(acc);
        bests.push(best);
        worsts.push(worst);
        j += 1;
    }
    // Per alternative: squared distances to the ideal and anti-ideal points.
    let mut out: Vec<Score> = Vec::new();
    let mut i: usize = 0;
    while i < m
        invariant
            i <= m,
            out@.len() == i,
            forall|t: int| 0 <= t < i ==> (#[trigger] out@[t])@ == score_at(mv, w, t),
        decreases m - i,
    {
        let mut db = Rat::from_i64(0);
        let mut dw = Rat::from_i64(0);
        let mut j2: usize = 0;
        while j2 < n
            invariant
                j2 <= n,
                db@ == q_sum(dist_terms(mv, w, i as int, true).take(j2 as int)),
                dw@ == q_sum(dist_terms(mv, w, i as int, false).take(j2 as int)),
            decreases n - j2,
        {
            let ghost tb = dist_term(mv, w, j2 as int, i as int, true);
            let ghost tw = dist_term(mv, w, j2 as int, i as int, false);
            proof {
                lemma_col_sumsq_nonneg(mv, n as nat, j2 as int);
            }
            let sj = &sums[j2];
            if sj.is_zero() {
                proof {
                    let dtb = dist_terms(mv, w, i as int, true);
                    let dtw = dist_terms(mv, w, i as int, false);
                    assert(tb == q_zero());
                    assert(tw == q_zero());
                    assert(dtb.take(j2 + 1).drop_last() =~= dtb.take(j2 as int));
                    assert(dtw.take(j2 + 1).drop_last() =~= dtw.take(j2 as int));
                    assert(dtb.take(j2 + 1).last() == tb);
                    assert(dtw.take(j2 + 1).last() == tw);
                    assert(q_sum(dtb.take(j2 + 1)) == q_add(db@, q_zero()));
                    assert(db@.n * 1 + 0 * db@.d == db@.n) by (nonlinear_arith);
                    assert(db@.d * 1 == db@.d) by (nonlinear_arith);
                    assert(dw@.n * 1 + 0 * dw@.d == dw@.n) by (nonlinear_arith);
                    assert(dw@.d * 1 == dw@.d) by (nonlinear_arith);
                    assert(q_add(db@, q_zero()) == db@);
                    assert(q_add(dw@, q_zero()) == dw@);
                }
            } else {
                let x = &matrix.rows[i][j2];
                let wj = &criteria.items[j2].weight;
                let w2 = wj.times(wj);
                let bdiff = x.minus(&bests[j2]);
                let bterm = w2.times(&bdiff.times(&bdiff)).div_by(sj);
                let db2 = db.plus(&bterm);
                let wdiff = x.minus(&worsts[j2]);
                let wterm = w2.times(&wdiff.times(&wdiff)).div_by(sj);
                let dw2 = dw.plus(&wterm);
                proof {
                    let dtb = dist_terms(mv, w, i as int, true);
                    let dtw = dist_terms(mv, w, i as int, false);
                    assert(w[j2 as int] == criteria.items@[j2 as int].spec_weight());
                    assert(bterm@ == tb);
                    assert(wterm@ == tw);
                    assert(dtb.take(j2 + 1).drop_last() =~= dtb.take(j2 as int));
                    assert(dtw.take(j2 + 1).drop_last() =~= dtw.take(j2 as int));
                    assert(dtb.take(j2 + 1).last() == tb);
                    assert(dtw.take(j2 + 1).last() == tw);
                }
                db = db2;
                dw = dw2;
            }
            j2 += 1;
        }
        proof {
            assert(dist_terms(mv, w, i as int, true).take(n as int) =~= dist_terms(
                mv,
                w,
                i as int,
                true,
            ));
            assert(dist_terms(mv, w, i as int, false).take(n as int) =~= dist_terms(
                mv,
                w,
                i as int,
                false,
            ));
            lemma_score_at_wf(mv, w, i as int);
        }
        out.push(Score { db_sq: db, dw_sq: dw });
        i += 1;
    }
    Ok(out)
}


/// Whether alternative `a` must be placed before `b` in the ranking.
fn rank_cmp(scores: &Vec<Score>, a: usize, b: usize) -> (r: bool)
    requires
        a < scores@.len(),
        b < scores@.len(),
    ensures
        r == rank_before(scores@.map_values(|s: Score| s@), a as int, b as int),
{
    let sa = &scores[a];
    let sb = &scores[b];
    if sb.ranks_below(sa) {
        true
    } else {
        sa.score_equals(sb) && a < b
    }
}

/// Ranks the alternatives of `matrix` best to worst: the returned sequence
/// is a permutation of the alternative indices, sorted by descending
/// closeness score with ties broken by ascending index. Fails only when the
/// matrix column count does not equal the criteria length.
#[verifier::loop_isolation(false)]
#[verifier::rlimit(60)]
pub fn rank_alternatives(matrix: &Matrix, criteria: &Criteria) -> (r: Result<Vec<usize>, Error>)
    ensures
        r is Ok <==> matrix.spec_width() == criteria.weights().len(),
        r is Err ==> r == Err::<Vec<usize>, Error>(Error::DimensionMismatch),
        r is Ok ==> valid_ranking(matrix@, criteria.weights(), (r->Ok_0)@),
{
    proof {
        use_type_invariant(matrix);
        use_type_invariant(criteria);
    }
    let scores = match score_alternatives(matrix, criteria) {
        Ok(s) => s,
        Err(e) => {
            return Err(e);
        },
    };
    let ghost mv = matrix@;
    let ghost w = criteria.weights();
    let ghost ss = score_seq(mv, w);
    let m = scores.len();
    proof {
        assert(ss =~= scores@.map_values(|s: Score| s@));
        assert forall|t: int| 0 <= t < m implies sq_wf(#[trigger] ss[t]) by {
            lemma_score_at_wf(mv, w, t);
        }
    }
    let mut order: Vec<usize> = Vec::new();
    let mut i: usize = 0;
    while i < m
        invariant
            i <= m,
            order@.len() == i,
            forall|k: usize| #[trigger] order@.contains(k) <==> (k as int) < i,
            forall|t: int| 0 <= t < i ==> (#[trigger] order@[t]) < m,
            forall|a: int, b: int|
                0 <= a < b < i ==> rank_before(ss, order@[a] as int, order@[b] as int),
        decreases m - i,
    {
        let mut p: usize = 0;
        while p < order.len() && rank_cmp(&scores, order[p], i)
            invariant
                p <= order@.len(),
                forall|t: int| 0 <= t < p ==> rank_before(ss, order@[t] as int, i as int),
            decreases order@.len() - p,
        {
            proof {
                assert(order@.contains(order@[p as int]));
            }
            p += 1;
        }
        proof {
            if p < order@.len() {
                let v = order@[p as int] as int;
                assert(order@.contains(order@[p as int]));
                lemma_rank_total(ss, v, i as int);
            }
            assert forall|t: int| p <= t < order@.len() implies rank_before(
                ss,
                i as int,
                order@[t] as int,
            ) by {
                assert(order@.contains(order@[t]));
                if t > p {
                    lemma_rank_trans(ss, i as int, order@[p as int] as int, order@[t] as int);
                }
            }
        }
        let ghost before = order@;
        order.insert(p, i);
        proof {
            before.insert_ensures(p as int, i);
            assert forall|k: usize| #[trigger] order@.contains(k) implies (k as int) < i + 1 by {
                let t = choose|t: int| 0 <= t < order@.len() && order@[t] == k;
                if t < p {
                    assert(before[t] == k);
                    assert(before.contains(k));
                } else if t > p {
                    assert(before[t - 1] == k);
                    assert(before.contains(k));
                }
            }
            assert forall|k: usize| (k as int) < i + 1 implies #[trigger] order@.contains(k) by {
                if (k as int) < i {
                    assert(before.contains(k));
                    let t = choose|t: int| 0 <= t < before.len() && before[t] == k;
                    if t < p {
                        assert(order@[t] == k);
                    } else {
                        assert(order@[t + 1] == k);
                    }
                } else {
                    assert(order@[p as int] == k);
                }
            }
            assert forall|a: int, b: int| 0 <= a < b < i + 1 implies rank_before(
                ss,
                order@[a] as int,
                order@[b] as int,
            ) by {
                if a < p && b < p {
                    assert(order@[a] == before[a] && order@[b] == before[b]);
                } else if a < p && b == p {
                    assert(order@[a] == before[a] && order@[b] == i);
                } else if a < p && b > p {
                    assert(order@[a] == before[a] && order@[b] == before[b - 1]);
                } else if a == p && b > p {
                    assert(order@[a] == i && order@[b] == before[b - 1]);
                } else {
                    assert(order@[a] == before[a - 1] && order@[b] == before[b - 1]);
                }
            }
        }
        i += 1;
    }
    proof {
        assert forall|a: int, b: int|
            0 <= a < order@.len() && 0 <= b < order@.len() && a != b implies order@[a]
            != order@[b] by {
            if a < b {
                assert(rank_before(ss, order@[a] as int, order@[b] as int));
                if order@[a] == order@[b] {
                    lemma_rank_irrefl(ss, order@[a] as int);
                }
            } else {
                assert(rank_before(ss, order@[b] as int, order@[a] as int));
                if order@[a] == order@[b] {
                    lemma_rank_irrefl(ss, order@[a] as int);
                }
            }
        }
    }
    proof {
        assert(ss.len() == m);
    }
    Ok(order)
}

} // verus!
