//! Laws of the scoring engine, stated and proved over its mathematical model.
//!
//! Each law quantifies over all well-formed inputs; together with the
//! contracts of `rank_alternatives` they pin the ranking behavior down:
//! a valid ranking is unique, is unchanged by scaling a column by a positive
//! constant, and is unchanged by removing a criterion column that is constant
//! across all alternatives.

use crate::rational::{
    lemma_q_add_wf, lemma_q_div_cancel, lemma_q_div_congr, lemma_q_div_nonneg,
    lemma_q_eq_lt_compat, lemma_q_eq_trans, lemma_q_eq_zero, lemma_q_lt_scale, lemma_q_mul_congr,
    lemma_q_mul_nonneg, lemma_q_sq_mul, lemma_q_sq_nonneg, lemma_q_sum_congr,
    lemma_q_sum_remove_zero, lemma_q_sum_scale, q_eq, q_is_zero, q_lt, q_mul, q_nonneg, q_sq,
    q_div, q_sub, q_sum, q_wf, q_zero, Q,
};
use crate::topsis::{
    col_extreme, col_sumsq, col_terms, dist_term, dist_terms, is_benefit, lemma_col_extreme_wf,
    lemma_col_sumsq_nonneg, lemma_dist_term_wf, lemma_rank_total, lemma_score_at_wf, m_wf,
    rank_before, ranking_of, score_at, score_eq, score_is_zero, score_lt, score_ratio, score_seq,
    sq_wf, valid_ranking, w_wf, ScoreQ,
};
use vstd::prelude::*;

verus! {

// ---------------------------------------------------------------------------
// Uniqueness: the ranking contract determines exactly one ranking.
// ---------------------------------------------------------------------------

proof fn lemma_ranking_unique_at(ss: Seq<ScoreQ>, p1: Seq<usize>, p2: Seq<usize>, t: int)
    requires
        forall|u: int| 0 <= u < ss.len() ==> sq_wf(#[trigger] ss[u]),
        ranking_of(ss, p1),
        ranking_of(ss, p2),
        0 <= t < ss.len(),
        forall|s: int| 0 <= s < t ==> p1[s] == p2[s],
    ensures
        p1[t] == p2[t],
{
    if p1[t] != p2[t] {
        let v1 = p1[t];
        let v2 = p2[t];
        let ghost k1 = v1 as int;
        assert(0 <= k1 < ss.len());
        assert(p2.contains(k1 as usize));
        assert(p2.contains(v1));
        let u = choose|u: int| 0 <= u < p2.len() && p2[u] == v1;
        assert(u > t);
        assert(rank_before(ss, v2 as int, v1 as int));
        let ghost k2 = v2 as int;
        assert(0 <= k2 < ss.len());
        assert(p1.contains(k2 as usize));
        assert(p1.contains(v2));
        let u2 = choose|u: int| 0 <= u < p1.len() && p1[u] == v2;
        assert(u2 > t);
        assert(rank_before(ss, v1 as int, v2 as int));
        lemma_rank_total(ss, v1 as int, v2 as int);
    }
}

proof fn lemma_ranking_unique_upto(ss: Seq<ScoreQ>, p1: Seq<usize>, p2: Seq<usize>, t: int)
    requires
        forall|u: int| 0 <= u < ss.len() ==> sq_wf(#[trigger] ss[u]),
        ranking_of(ss, p1),
        ranking_of(ss, p2),
        0 <= t <= ss.len(),
    ensures
        forall|s: int| 0 <= s < t ==> p1[s] == p2[s],
    decreases t,
{
    if t > 0 {
        lemma_ranking_unique_upto(ss, p1, p2, t - 1);
        lemma_ranking_unique_at(ss, p1, p2, t - 1);
    }
}

/// Law: the scores admit exactly one ranking — a permutation sorted by
/// descending score with ties broken by ascending index is unique. Together
/// with the contract of `rank_alternatives`, this makes its result the one
/// mathematical ranking of the inputs.
pub proof fn lemma_ranking_unique(ss: Seq<ScoreQ>, p1: Seq<usize>, p2: Seq<usize>)
    requires
        forall|u: int| 0 <= u < ss.len() ==> sq_wf(#[trigger] ss[u]),
        ranking_of(ss, p1),
        ranking_of(ss, p2),
    ensures
        p1 == p2,
{
    lemma_ranking_unique_upto(ss, p1, p2, ss.len() as int);
    assert(p1 =~= p2);
}

// ---------------------------------------------------------------------------
// Scores equal in value rank identically.
// ---------------------------------------------------------------------------

/// Scores whose squared distances agree in value compare identically.
proof fn lemma_score_equiv_compat(a1: ScoreQ, b1: ScoreQ, a2: ScoreQ, b2: ScoreQ)
    requires
        sq_wf(a1),
        sq_wf(b1),
        sq_wf(a2),
        sq_wf(b2),
        q_eq(a1.db2, a2.db2),
        q_eq(a1.dw2, a2.dw2),
        q_eq(b1.db2, b2.db2),
        q_eq(b1.dw2, b2.dw2),
    ensures
        score_lt(a1, b1) == score_lt(a2, b2),
        score_eq(a1, b1) == score_eq(a2, b2),
{
    lemma_q_eq_zero(a1.dw2, a2.dw2);
    lemma_q_eq_zero(b1.dw2, b2.dw2);
    if !score_is_zero(a1) && !score_is_zero(b1) {
        lemma_q_div_nonneg(a1.db2, a1.dw2);
        lemma_q_div_nonneg(a2.db2, a2.dw2);
        lemma_q_div_nonneg(b1.db2, b1.dw2);
        lemma_q_div_nonneg(b2.db2, b2.dw2);
        lemma_q_div_congr(a1.db2, a1.dw2, a2.db2, a2.dw2);
        lemma_q_div_congr(b1.db2, b1.dw2, b2.db2, b2.dw2);
        lemma_q_eq_lt_compat(score_ratio(b1), score_ratio(b2), score_ratio(a1));
        lemma_q_eq_lt_compat(score_ratio(a1), score_ratio(a2), score_ratio(b2));
        lemma_q_eq_lt_compat(score_ratio(a1), score_ratio(a2), score_ratio(b1));
        lemma_q_eq_lt_compat(score_ratio(b1), score_ratio(b2), score_ratio(a2));
    }
}

/// Score sequences equal in value admit exactly the same rankings.
proof fn lemma_rank_equiv(ss1: Seq<ScoreQ>, ss2: Seq<ScoreQ>, p: Seq<usize>)
    requires
        ss1.len() == ss2.len(),
        forall|u: int| 0 <= u < ss1.len() ==> sq_wf(#[trigger] ss1[u]),
        forall|u: int| 0 <= u < ss2.len() ==> sq_wf(#[trigger] ss2[u]),
        forall|u: int|
            0 <= u < ss1.len() ==> q_eq((#[trigger] ss1[u]).db2, ss2[u].db2) && q_eq(
                ss1[u].dw2,
                ss2[u].dw2,
            ),
    ensures
        ranking_of(ss1, p) == ranking_of(ss2, p),
{
    assert forall|a: int, b: int|
        0 <= a < ss1.len() && 0 <= b < ss1.len() implies rank_before(ss1, a, b) == rank_before(
        ss2,
        a,
        b,
    ) by {
        lemma_score_equiv_compat(ss1[b], ss1[a], ss2[b], ss2[a]);
        lemma_score_equiv_compat(ss1[a], ss1[b], ss2[a], ss2[b]);
    }
}

// ---------------------------------------------------------------------------
// A constant criterion column contributes no discriminating power.
// ---------------------------------------------------------------------------

/// A column extreme only looks at its own column's values.
proof fn lemma_col_extreme_map(m1: Seq<Seq<Q>>, m2: Seq<Seq<Q>>, j1: int, j2: int, take_max: bool)
    requires
        m1.len() == m2.len(),
        m1.len() >= 1,
        forall|i: int| 0 <= i < m1.len() ==> (#[trigger] m2[i])[j2] == m1[i][j1],
    ensures
        col_extreme(m2, j2, take_max) == col_extreme(m1, j1, take_max),
    decreases m1.len(),
{
    if m1.len() > 1 {
        lemma_col_extreme_map(m1.drop_last(), m2.drop_last(), j1, j2, take_max);
    }
}

/// Transport of one distance contribution from `m` to the matrix `m2` with
/// column `j` removed: the contributions of the surviving columns are
/// unchanged.
proof fn lemma_removed_column_term(
    m: Seq<Seq<Q>>,
    w: Seq<Q>,
    j: int,
    m2: Seq<Seq<Q>>,
    t: int,
    i: int,
    to_best: bool,
)
    requires
        m_wf(m, w.len()),
        w_wf(w),
        w.len() >= 2,
        0 <= j < w.len(),
        m2.len() == m.len(),
        forall|i2: int| 0 <= i2 < m.len() ==> m2[i2] == (#[trigger] m[i2]).remove(j),
        0 <= t < w.len() - 1,
        0 <= i < m.len(),
    ensures
        dist_term(m2, w.remove(j), t, i, to_best) == dist_term(
            m,
            w,
            if t < j {
                t
            } else {
                t + 1
            },
            i,
            to_best,
        ),
{
    let w2 = w.remove(j);
    w.remove_ensures(j);
    let t1 = if t < j {
        t
    } else {
        t + 1
    };
    assert forall|i2: int| 0 <= i2 < m.len() implies (#[trigger] m2[i2])[t] == m[i2][t1] by {
        m[i2].remove_ensures(j);
    }
    assert(col_terms(m2, t) =~= col_terms(m, t1));
    lemma_col_extreme_map(m, m2, t1, t, is_benefit(w, t1));
    lemma_col_extreme_map(m, m2, t1, t, !is_benefit(w, t1));
    assert(w2[t] == w[t1]);
    assert(is_benefit(w2, t) == is_benefit(w, t1));
}

/// The distance contribution of a constant column is zero.
proof fn lemma_constant_column_term(m: Seq<Seq<Q>>, w: Seq<Q>, j: int, i: int, to_best: bool)
    requires
        m_wf(m, w.len()),
        w_wf(w),
        0 <= j < w.len(),
        0 <= i < m.len(),
        forall|i2: int| 0 <= i2 < m.len() ==> q_eq(#[trigger] m[i2][j], m[0][j]),
    ensures
        q_is_zero(dist_term(m, w, j, i, to_best)),
{
    let s = col_sumsq(m, j);
    if !q_is_zero(s) {
        let dir = if to_best {
            is_benefit(w, j)
        } else {
            !is_benefit(w, j)
        };
        lemma_col_extreme_wf(m, w.len(), j, dir);
        let i0 = choose|i0: int| 0 <= i0 < m.len() && col_extreme(m, j, dir) == m[i0][j];
        let e = col_extreme(m, j, dir);
        assert(q_eq(m[i][j], m[0][j]));
        assert(q_eq(m[i0][j], m[0][j]));
        assert(q_eq(m[i][j], e)) by (nonlinear_arith)
            requires
                q_wf(m[i][j]),
                q_wf(m[0][j]),
                q_wf(e),
                q_eq(m[i][j], m[0][j]),
                q_eq(e, m[0][j]),
        ;
        assert(q_sub(m[i][j], e).n == 0);
        assert(q_sq(q_sub(m[i][j], e)).n == 0);
        let x = q_mul(q_sq(w[j]), q_sq(q_sub(m[i][j], e)));
        assert(x.n == 0);
        assert(x.n * s.d == 0) by (nonlinear_arith)
            requires
                x.n == 0,
        ;
        assert(dist_term(m, w, j, i, to_best).n == 0);
    }
}

/// Law: a criterion column that is constant (in value) across all
/// alternatives contributes no discriminating power. With the column removed
/// from the matrix and its criterion removed from the weights, exactly the
/// same rankings are valid — and by `lemma_ranking_unique` a valid ranking is
/// unique, so the ranking itself is unchanged.
pub proof fn lemma_constant_column_irrelevant(
    m: Seq<Seq<Q>>,
    w: Seq<Q>,
    j: int,
    m2: Seq<Seq<Q>>,
    p: Seq<usize>,
)
    requires
        m_wf(m, w.len()),
        w_wf(w),
        w.len() >= 2,
        0 <= j < w.len(),
        forall|i: int| 0 <= i < m.len() ==> q_eq(#[trigger] m[i][j], m[0][j]),
        m2.len() == m.len(),
        forall|i: int| 0 <= i < m.len() ==> m2[i] == (#[trigger] m[i]).remove(j),
    ensures
        valid_ranking(m, w, p) == valid_ranking(m2, w.remove(j), p),
{
    let w2 = w.remove(j);
    w.remove_ensures(j);
    assert forall|i: int| 0 <= i < m2.len() implies (#[trigger] m2[i]).len() == w2.len() by {
        m[i].remove_ensures(j);
    }
    assert forall|i: int, t: int| 0 <= i < m2.len() && 0 <= t < w2.len() implies q_wf(
        #[trigger] m2[i][t],
    ) by {
        m[i].remove_ensures(j);
    }
    assert(m_wf(m2, w2.len()));
    assert(w_wf(w2));
    let ss1 = score_seq(m, w);
    let ss2 = score_seq(m2, w2);
    assert forall|i: int| 0 <= i < m.len() implies q_eq(
        (#[trigger] ss2[i]).db2,
        ss1[i].db2,
    ) && q_eq(ss2[i].dw2, ss1[i].dw2) by {
        lemma_removed_column_score(m, w, j, m2, i);
    }
    assert forall|u: int| 0 <= u < ss1.len() implies sq_wf(#[trigger] ss1[u]) by {
        lemma_score_at_wf(m, w, u);
    }
    assert forall|u: int| 0 <= u < ss2.len() implies sq_wf(#[trigger] ss2[u]) by {
        lemma_score_at_wf(m2, w2, u);
    }
    lemma_rank_equiv(ss2, ss1, p);
}

/// Transport of a whole squared-distance pair across the removal of a
/// constant column.
proof fn lemma_removed_column_score(m: Seq<Seq<Q>>, w: Seq<Q>, j: int, m2: Seq<Seq<Q>>, i: int)
    requires
        m_wf(m, w.len()),
        w_wf(w),
        w.len() >= 2,
        0 <= j < w.len(),
        forall|i2: int| 0 <= i2 < m.len() ==> q_eq(#[trigger] m[i2][j], m[0][j]),
        m2.len() == m.len(),
        forall|i2: int| 0 <= i2 < m.len() ==> m2[i2] == (#[trigger] m[i2]).remove(j),
        0 <= i < m.len(),
    ensures
        q_eq(score_at(m2, w.remove(j), i).db2, score_at(m, w, i).db2),
        q_eq(score_at(m2, w.remove(j), i).dw2, score_at(m, w, i).dw2),
{
    let w2 = w.remove(j);
    w.remove_ensures(j);
    lemma_removed_column_terms_eq(m, w, j, m2, i, true);
    lemma_removed_column_terms_eq(m, w, j, m2, i, false);
}

/// The distance-term sequence with the constant column removed sums to the
/// same value: the removed term is zero.
proof fn lemma_removed_column_terms_eq(
    m: Seq<Seq<Q>>,
    w: Seq<Q>,
    j: int,
    m2: Seq<Seq<Q>>,
    i: int,
    to_best: bool,
)
    requires
        m_wf(m, w.len()),
        w_wf(w),
        w.len() >= 2,
        0 <= j < w.len(),
        forall|i2: int| 0 <= i2 < m.len() ==> q_eq(#[trigger] m[i2][j], m[0][j]),
        m2.len() == m.len(),
        forall|i2: int| 0 <= i2 < m.len() ==> m2[i2] == (#[trigger] m[i2]).remove(j),
        0 <= i < m.len(),
    ensures
        q_eq(q_sum(dist_terms(m2, w.remove(j), i, to_best)), q_sum(dist_terms(m, w, i, to_best))),
{
    let w2 = w.remove(j);
    let dt1 = dist_terms(m, w, i, to_best);
    let dt2 = dist_terms(m2, w2, i, to_best);
    w.remove_ensures(j);
    assert forall|t: int| 0 <= t < dt2.len() implies #[trigger] dt2[t] == dt1.remove(j)[t] by {
        dt1.remove_ensures(j);
        lemma_removed_column_term(m, w, j, m2, t, i, to_best);
    }
    dt1.remove_ensures(j);
    assert(dt2 =~= dt1.remove(j));
    lemma_constant_column_term(m, w, j, i, to_best);
    assert forall|t: int| 0 <= t < dt1.len() implies q_wf(#[trigger] dt1[t]) by {
        lemma_dist_term_wf(m, w, t, i, to_best);
    }
    lemma_q_sum_remove_zero(dt1, j);
}


// ---------------------------------------------------------------------------
// Scale invariance: normalization cancels a uniform positive column scale.
// ---------------------------------------------------------------------------

/// Scaling a column scales its extreme by the same factor.
proof fn lemma_scaled_column_extreme(
    m: Seq<Seq<Q>>,
    m2: Seq<Seq<Q>>,
    j: int,
    c: Q,
    take_max: bool,
)
    requires
        m.len() >= 1,
        m2.len() == m.len(),
        q_wf(c),
        q_lt(q_zero(), c),
        forall|i: int| 0 <= i < m.len() ==> q_wf(#[trigger] m[i][j]),
        forall|i: int| 0 <= i < m.len() ==> (#[trigger] m2[i])[j] == q_mul(c, m[i][j]),
    ensures
        col_extreme(m2, j, take_max) == q_mul(c, col_extreme(m, j, take_max)),
        q_wf(col_extreme(m, j, take_max)),
    decreases m.len(),
{
    if m.len() > 1 {
        lemma_scaled_column_extreme(m.drop_last(), m2.drop_last(), j, c, take_max);
        let prev = col_extreme(m.drop_last(), j, take_max);
        let x = m[m.len() - 1][j];
        lemma_q_lt_scale(c, prev, x);
        lemma_q_lt_scale(c, x, prev);
    }
}

/// Distributing a scale factor out of a difference of fractions.
proof fn lemma_scale_sub(cn: int, cd: int, xn: int, xd: int, en: int, ed: int)
    ensures
        (cn * xn) * (cd * ed) - (cn * en) * (cd * xd) == (cn * cd) * (xn * ed - en * xd),
        (cd * xd) * (cd * ed) == (cd * cd) * (xd * ed),
{
    broadcast use vstd::arithmetic::mul::group_mul_properties;

    assert((cn * xn) * (cd * ed) == (cn * cd) * (xn * ed)) by (nonlinear_arith);
    assert((cn * en) * (cd * xd) == (cn * cd) * (en * xd)) by (nonlinear_arith);
    assert((cn * cd) * (xn * ed) - (cn * cd) * (en * xd) == (cn * cd) * (xn * ed - en * xd));
    assert((cd * xd) * (cd * ed) == (cd * cd) * (xd * ed)) by (nonlinear_arith);
}

/// One distance contribution is unchanged, in value, by scaling one column
/// by a positive constant.
proof fn lemma_scaled_column_term(
    m: Seq<Seq<Q>>,
    w: Seq<Q>,
    j: int,
    c: Q,
    m2: Seq<Seq<Q>>,
    t: int,
    i: int,
    to_best: bool,
)
    requires
        m_wf(m, w.len()),
        m_wf(m2, w.len()),
        w_wf(w),
        0 <= j < w.len(),
        q_wf(c),
        q_lt(q_zero(), c),
        m2.len() == m.len(),
        forall|i2: int|
            0 <= i2 < m.len() ==> m2[i2] == (#[trigger] m[i2]).update(j, q_mul(c, m[i2][j])),
        0 <= t < w.len(),
        0 <= i < m.len(),
    ensures
        q_eq(dist_term(m2, w, t, i, to_best), dist_term(m, w, t, i, to_best)),
{
    lemma_dist_term_wf(m, w, t, i, to_best);
    lemma_dist_term_wf(m2, w, t, i, to_best);
    if t != j {
        assert forall|i2: int| 0 <= i2 < m.len() implies (#[trigger] m2[i2])[t] == m[i2][t] by {}
        assert(col_terms(m2, t) =~= col_terms(m, t));
        lemma_col_extreme_map(m, m2, t, t, is_benefit(w, t));
        lemma_col_extreme_map(m, m2, t, t, !is_benefit(w, t));
        assert(dist_term(m2, w, t, i, to_best) == dist_term(m, w, t, i, to_best));
    } else {
        let k = q_sq(c);
        let s1 = col_sumsq(m, j);
        let s2 = col_sumsq(m2, j);
        lemma_q_sq_nonneg(c);
        assert(c.n * c.n > 0) by (nonlinear_arith)
            requires
                c.n > 0,
        ;
        assert forall|i2: int|
            0 <= i2 < m.len() implies #[trigger] col_terms(m2, j)[i2] == q_mul(
            k,
            col_terms(m, j)[i2],
        ) by {
            lemma_q_sq_mul(c, m[i2][j]);
        }
        assert forall|i2: int| 0 <= i2 < m.len() implies q_wf(#[trigger] col_terms(m, j)[i2]) by {
            lemma_q_sq_nonneg(m[i2][j]);
        }
        lemma_q_sum_scale(k, col_terms(m, j), col_terms(m2, j));
        lemma_col_sumsq_nonneg(m, w.len(), j);
        lemma_col_sumsq_nonneg(m2, w.len(), j);
        lemma_q_add_wf(k, s1);
        lemma_q_eq_zero(s2, q_mul(k, s1));
        assert((k.n * s1.n == 0) == (s1.n == 0)) by (nonlinear_arith)
            requires
                k.n > 0,
        ;
        assert(q_is_zero(s2) == q_is_zero(s1));
        if !q_is_zero(s1) {
            assert(c.n * c.n > 0) by (nonlinear_arith)
                requires
                    c.n > 0,
            ;
            assert(k.n > 0);
            assert((k.n * s1.n == 0) == (s1.n == 0)) by (nonlinear_arith)
                requires
                    k.n > 0,
            ;
            let dir = if to_best {
                is_benefit(w, j)
            } else {
                !is_benefit(w, j)
            };
            let e = col_extreme(m, j, dir);
            lemma_scaled_column_extreme(m, m2, j, c, dir);
            let x = m[i][j];
            let sub1 = q_sub(x, e);
            let sub2 = q_sub(m2[i][j], col_extreme(m2, j, dir));
            assert(sub2 == q_sub(q_mul(c, x), q_mul(c, e)));
            lemma_scale_sub(c.n, c.d, x.n, x.d, e.n, e.d);
            let c2 = Q { n: c.n * c.d, d: c.d * c.d };
            assert(sub2.n == c2.n * sub1.n);
            assert(sub2.d == c2.d * sub1.d);
            assert(sub2 == q_mul(c2, sub1));
            lemma_q_sq_mul(c2, sub1);
            let k2 = q_sq(c2);
            let a = q_sq(sub1);
            let na = q_mul(q_sq(w[t]), a);
            assert(q_mul(q_sq(w[t]), q_mul(k2, a)).n == q_mul(k2, q_mul(q_sq(w[t]), a)).n)
                by (nonlinear_arith);
            assert(q_mul(q_sq(w[t]), q_mul(k2, a)).d == q_mul(k2, q_mul(q_sq(w[t]), a)).d)
                by (nonlinear_arith);
            assert(q_mul(q_sq(w[t]), q_sq(sub2)) == q_mul(k2, na));
            assert(dist_term(m2, w, t, i, to_best) == q_div(q_mul(k2, na), s2));
            // `c2` equals `c` in value, so `k2` equals `k` and the scale of
            // the squared difference cancels against the scale of the norm.
            assert((c.n * c.d) * c.d == c.n * (c.d * c.d)) by (nonlinear_arith);
            assert(c.d * c.d > 0) by (nonlinear_arith)
                requires
                    c.d > 0,
            ;
            assert(q_wf(c2) && q_eq(c2, c));
            lemma_q_mul_congr(c2, c2, c, c);
            assert(q_eq(k2, k));
            lemma_q_add_wf(c2, c2);
            lemma_q_add_wf(k2, s1);
            lemma_q_mul_congr(k2, s1, k, s1);
            lemma_q_eq_trans(s2, q_mul(k, s1), q_mul(k2, s1));
            assert((c.n * c.d) * (c.n * c.d) > 0) by (nonlinear_arith)
                requires
                    c.n > 0,
                    c.d > 0,
            ;
            assert(k2.n > 0);
            lemma_q_add_wf(x, e);
            lemma_q_sq_nonneg(sub1);
            lemma_q_sq_nonneg(w[t]);
            lemma_q_mul_nonneg(q_sq(w[t]), a);
            assert(q_nonneg(k2) && !q_is_zero(k2));
            lemma_q_mul_nonneg(k2, s1);
            assert(!q_is_zero(q_mul(k2, s1))) by (nonlinear_arith)
                requires
                    k2.n > 0,
                    s1.n > 0,
                    q_mul(k2, s1).n == k2.n * s1.n,
            ;
            lemma_q_add_wf(k2, na);
            lemma_q_div_congr(q_mul(k2, na), s2, q_mul(k2, na), q_mul(k2, s1));
            lemma_q_div_cancel(k2, na, s1);
            lemma_q_div_nonneg(q_mul(k2, na), s2);
            lemma_q_div_nonneg(q_mul(k2, na), q_mul(k2, s1));
            lemma_q_div_nonneg(na, s1);
            lemma_q_eq_trans(
                q_div(q_mul(k2, na), s2),
                q_div(q_mul(k2, na), q_mul(k2, s1)),
                q_div(na, s1),
            );
        }
    }
}

/// Transport of a whole squared-distance pair across a column scaling.
proof fn lemma_scaled_column_score(m: Seq<Seq<Q>>, w: Seq<Q>, j: int, c: Q, m2: Seq<Seq<Q>>, i: int)
    requires
        m_wf(m, w.len()),
        m_wf(m2, w.len()),
        w_wf(w),
        0 <= j < w.len(),
        q_wf(c),
        q_lt(q_zero(), c),
        m2.len() == m.len(),
        forall|i2: int|
            0 <= i2 < m.len() ==> m2[i2] == (#[trigger] m[i2]).update(j, q_mul(c, m[i2][j])),
        0 <= i < m.len(),
    ensures
        q_eq(score_at(m2, w, i).db2, score_at(m, w, i).db2),
        q_eq(score_at(m2, w, i).dw2, score_at(m, w, i).dw2),
{
    lemma_scaled_column_terms_eq(m, w, j, c, m2, i, true);
    lemma_scaled_column_terms_eq(m, w, j, c, m2, i, false);
}

proof fn lemma_scaled_column_terms_eq(
    m: Seq<Seq<Q>>,
    w: Seq<Q>,
    j: int,
    c: Q,
    m2: Seq<Seq<Q>>,
    i: int,
    to_best: bool,
)
    requires
        m_wf(m, w.len()),
        m_wf(m2, w.len()),
        w_wf(w),
        0 <= j < w.len(),
        q_wf(c),
        q_lt(q_zero(), c),
        m2.len() == m.len(),
        forall|i2: int|
            0 <= i2 < m.len() ==> m2[i2] == (#[trigger] m[i2]).update(j, q_mul(c, m[i2][j])),
        0 <= i < m.len(),
    ensures
        q_eq(q_sum(dist_terms(m2, w, i, to_best)), q_sum(dist_terms(m, w, i, to_best))),
{
    let dt1 = dist_terms(m, w, i, to_best);
    let dt2 = dist_terms(m2, w, i, to_best);
    assert forall|t: int| 0 <= t < dt1.len() implies q_wf(#[trigger] dt1[t]) by {
        lemma_dist_term_wf(m, w, t, i, to_best);
    }
    assert forall|t: int| 0 <= t < dt2.len() implies q_wf(#[trigger] dt2[t]) by {
        lemma_dist_term_wf(m2, w, t, i, to_best);
    }
    assert forall|t: int| 0 <= t < dt2.len() implies q_eq(#[trigger] dt2[t], dt1[t]) by {
        lemma_scaled_column_term(m, w, j, c, m2, t, i, to_best);
    }
    lemma_q_sum_congr(dt2, dt1);
}

/// Law: scale invariance. Scaling every value of one criterion column by the
/// same positive constant changes no ranking: the column normalization
/// cancels a uniform scale. Combined with `lemma_ranking_unique`, the scaled
/// matrix and the unscaled one have the same ranking.
pub proof fn lemma_scale_invariance(
    m: Seq<Seq<Q>>,
    w: Seq<Q>,
    j: int,
    c: Q,
    m2: Seq<Seq<Q>>,
    p: Seq<usize>,
)
    requires
        m_wf(m, w.len()),
        w_wf(w),
        0 <= j < w.len(),
        q_wf(c),
        q_lt(q_zero(), c),
        m2.len() == m.len(),
        forall|i: int|
            0 <= i < m.len() ==> m2[i] == (#[trigger] m[i]).update(j, q_mul(c, m[i][j])),
    ensures
        valid_ranking(m2, w, p) == valid_ranking(m, w, p),
{
    assert forall|i: int| 0 <= i < m2.len() implies (#[trigger] m2[i]).len() == w.len() by {
        assert(m2[i] == m[i].update(j, q_mul(c, m[i][j])));
    }
    assert forall|i: int, t: int| 0 <= i < m2.len() && 0 <= t < w.len() implies q_wf(
        #[trigger] m2[i][t],
    ) by {
        assert(m2[i] == m[i].update(j, q_mul(c, m[i][j])));
        if t == j {
            lemma_q_add_wf(c, m[i][j]);
        }
    }
    assert(m_wf(m2, w.len()));
    let ss1 = score_seq(m, w);
    let ss2 = score_seq(m2, w);
    assert forall|i: int| 0 <= i < m.len() implies q_eq(
        (#[trigger] ss2[i]).db2,
        ss1[i].db2,
    ) && q_eq(ss2[i].dw2, ss1[i].dw2) by {
        lemma_scaled_column_score(m, w, j, c, m2, i);
    }
    assert forall|u: int| 0 <= u < ss1.len() implies sq_wf(#[trigger] ss1[u]) by {
        lemma_score_at_wf(m, w, u);
    }
    assert forall|u: int| 0 <= u < ss2.len() implies sq_wf(#[trigger] ss2[u]) by {
        lemma_score_at_wf(m2, w, u);
    }
    lemma_rank_equiv(ss2, ss1, p);
}

} // verus!
