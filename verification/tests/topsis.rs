use proxmox_resource_scheduling::rational::Number;
use proxmox_resource_scheduling::topsis::{
    rank_alternatives, score_alternatives, Criteria, Criterion, Error, Matrix,
};

/// An integral value.
fn num(v: i64) -> Number {
    Number::new(v, 1)
}

/// The value `n / d`.
fn ratio(n: i64, d: i64) -> Number {
    Number::new(n, d)
}

fn criterion(name: &str, weight: Number) -> Result<Criterion, Error> {
    Criterion::new(name.to_string(), weight)
}

fn matrix_of(rows: Vec<Vec<Number>>) -> Matrix {
    Matrix::new(rows).unwrap()
}

fn ranked(matrix: &Matrix, criteria: &Criteria) -> Vec<usize> {
    rank_alternatives(matrix, criteria).unwrap()
}

fn row1(values: [i64; 1]) -> Vec<Number> {
    values.iter().map(|&v| num(v)).collect()
}

fn row2(values: [i64; 2]) -> Vec<Number> {
    values.iter().map(|&v| num(v)).collect()
}

fn row3(values: [i64; 3]) -> Vec<Number> {
    values.iter().map(|&v| num(v)).collect()
}

#[test]
fn test_topsis_single_criterion() {
    let criteria_pos =
        Criteria::new(vec![criterion("the one and only", num(1))]).unwrap();
    let criteria_neg =
        Criteria::new(vec![criterion("the one and only", num(-1))]).unwrap();

    let matrix = vec![row1([0])];
    assert_eq!(ranked(&matrix_of(matrix.clone()), &criteria_pos), vec![0]);
    assert_eq!(ranked(&matrix_of(matrix), &criteria_neg), vec![0]);

    let matrix = vec![row1([0]), row1([2])];
    assert_eq!(ranked(&matrix_of(matrix.clone()), &criteria_pos), vec![1, 0]);
    assert_eq!(ranked(&matrix_of(matrix), &criteria_neg), vec![0, 1]);

    let matrix = vec![row1([1]), row1([2])];
    assert_eq!(ranked(&matrix_of(matrix.clone()), &criteria_pos), vec![1, 0]);
    assert_eq!(ranked(&matrix_of(matrix), &criteria_neg), vec![0, 1]);

    let matrix = vec![row1([1]), row1([2]), row1([5]), row1([3]), row1([4])];
    assert_eq!(
        ranked(&matrix_of(matrix.clone()), &criteria_pos),
        vec![2, 4, 3, 1, 0]
    );
    assert_eq!(
        ranked(&matrix_of(matrix), &criteria_neg),
        vec![0, 1, 3, 4, 2]
    );

    let matrix = vec![row1([-2]), row1([-5]), row1([-4]), row1([1]), row1([-3])];
    assert_eq!(
        ranked(&matrix_of(matrix.clone()), &criteria_pos),
        vec![3, 0, 4, 2, 1]
    );
    assert_eq!(
        ranked(&matrix_of(matrix), &criteria_neg),
        vec![1, 2, 4, 0, 3]
    );
}

#[test]
fn test_topsis_two_criteria() {
    let criteria_max_min = Criteria::new(vec![
        criterion("max", num(1)),
        criterion("min", num(-1)),
    ])
    .unwrap();
    let criteria_min_max = Criteria::new(vec![
        criterion("min", num(-1)),
        criterion("max", num(1)),
    ])
    .unwrap();
    let criteria_min_min = Criteria::new(vec![
        criterion("min1", num(-1)),
        criterion("min2", num(-1)),
    ])
    .unwrap();
    let criteria_max_max = Criteria::new(vec![
        criterion("max1", num(1)),
        criterion("max2", num(1)),
    ])
    .unwrap();

    let matrix = vec![row2([0, 0])];
    assert_eq!(ranked(&matrix_of(matrix.clone()), &criteria_max_min), vec![0]);
    assert_eq!(ranked(&matrix_of(matrix.clone()), &criteria_min_max), vec![0]);
    assert_eq!(ranked(&matrix_of(matrix.clone()), &criteria_min_min), vec![0]);
    assert_eq!(ranked(&matrix_of(matrix), &criteria_max_max), vec![0]);

    let matrix = vec![
        row2([0, 1]),
        row2([1, 0]),
        row2([1, -1]),
        row2([1, 1]),
        row2([0, 0]),
    ];
    assert_eq!(
        ranked(&matrix_of(matrix.clone()), &criteria_max_min),
        vec![2, 1, 4, 3, 0]
    );
    assert_eq!(
        ranked(&matrix_of(matrix.clone()), &criteria_min_max),
        vec![0, 3, 4, 1, 2]
    );
    assert_eq!(
        ranked(&matrix_of(matrix.clone()), &criteria_min_min),
        vec![2, 4, 1, 0, 3]
    );
    assert_eq!(
        ranked(&matrix_of(matrix), &criteria_max_max),
        vec![3, 0, 1, 4, 2]
    );

    // Cross-checked against an independent TOPSIS calculator.
    let matrix = vec![
        vec![num(7), num(4)],
        vec![num(1), ratio(1, 2)],
        vec![num(-1), num(-1)],
        vec![ratio(-17, 2), ratio(23, 2)],
        vec![num(4), num(7)],
    ];
    assert_eq!(
        ranked(&matrix_of(matrix.clone()), &criteria_max_min),
        vec![0, 1, 4, 2, 3]
    );
    assert_eq!(
        ranked(&matrix_of(matrix.clone()), &criteria_min_max),
        vec![3, 2, 4, 1, 0]
    );
    assert_eq!(
        ranked(&matrix_of(matrix.clone()), &criteria_min_min),
        vec![2, 3, 1, 0, 4]
    );
    assert_eq!(
        ranked(&matrix_of(matrix), &criteria_max_max),
        vec![4, 0, 1, 3, 2]
    );
}

#[test]
fn test_topsis_three_criteria() {
    let criteria_first = Criteria::new(vec![
        criterion("more", num(10)),
        criterion("less", ratio(1, 5)),
        criterion("least", ratio(1, 10)),
    ])
    .unwrap();
    let criteria_second = Criteria::new(vec![
        criterion("less", ratio(1, 5)),
        criterion("more", num(10)),
        criterion("least", ratio(1, 10)),
    ])
    .unwrap();
    let criteria_third = Criteria::new(vec![
        criterion("less", ratio(1, 5)),
        criterion("least", ratio(1, 10)),
        criterion("more", num(10)),
    ])
    .unwrap();
    let criteria_min = Criteria::new(vec![
        criterion("most", num(-10)),
        criterion("more", num(-5)),
        criterion("less", ratio(1, 10)),
    ])
    .unwrap();

    let matrix = vec![row3([1, 0, 0]), row3([0, 1, 0]), row3([0, 0, 1])];
    assert_eq!(
        ranked(&matrix_of(matrix.clone()), &criteria_first),
        vec![0, 1, 2]
    );
    assert_eq!(
        ranked(&matrix_of(matrix.clone()), &criteria_second),
        vec![1, 0, 2]
    );
    assert_eq!(
        ranked(&matrix_of(matrix.clone()), &criteria_third),
        vec![2, 0, 1]
    );
    assert_eq!(ranked(&matrix_of(matrix), &criteria_min), vec![2, 1, 0]);

    // Normalization cancels the scale of the third column.
    let matrix = vec![row3([1, 0, 0]), row3([0, 1, 0]), row3([0, 0, 1000])];
    assert_eq!(
        ranked(&matrix_of(matrix.clone()), &criteria_first),
        vec![0, 1, 2]
    );
    assert_eq!(
        ranked(&matrix_of(matrix.clone()), &criteria_second),
        vec![1, 0, 2]
    );
    assert_eq!(
        ranked(&matrix_of(matrix.clone()), &criteria_third),
        vec![2, 0, 1]
    );
    assert_eq!(ranked(&matrix_of(matrix), &criteria_min), vec![2, 1, 0]);

    let matrix = vec![row3([-1, 0, 0]), row3([0, -1, 0]), row3([0, 0, 1])];
    assert_eq!(
        ranked(&matrix_of(matrix.clone()), &criteria_first),
        vec![2, 1, 0]
    );
    assert_eq!(
        ranked(&matrix_of(matrix.clone()), &criteria_second),
        vec![2, 0, 1]
    );
    assert_eq!(
        ranked(&matrix_of(matrix.clone()), &criteria_third),
        vec![2, 1, 0]
    );
    assert_eq!(ranked(&matrix_of(matrix), &criteria_min), vec![0, 1, 2]);
}

#[test]
fn test_nan() {
    let matrix = vec![
        row3([-1, 0, 0]),
        row3([0, -1, 0]),
        vec![num(0), Number::non_finite(), num(1)],
    ];
    assert!(Matrix::new(matrix).is_err());
}

#[test]
fn test_zero() {
    let criteria_zero = Criteria::new(vec![
        criterion("z", num(0)),
        criterion("e", num(0)),
        criterion("ro", num(0)),
    ]);
    assert!(criteria_zero.is_err());

    let criteria_first = Criteria::new(vec![
        criterion("more", num(10)),
        criterion("less", ratio(1, 5)),
        criterion("least", ratio(1, 10)),
    ])
    .unwrap();

    let matrix = vec![row3([0, 0, 0]), row3([0, 1, 0]), row3([0, 0, 1])];
    assert_eq!(ranked(&matrix_of(matrix), &criteria_first), vec![1, 2, 0]);
}

#[test]
fn test_error_variants() {
    // A zero weight and a non-finite weight are both invalid.
    assert!(matches!(criterion("w", num(0)), Err(Error::InvalidCriterion)));
    assert!(matches!(
        criterion("w", Number::non_finite()),
        Err(Error::InvalidCriterion)
    ));
    // An empty criteria collection is rejected.
    assert!(matches!(Criteria::new(vec![]), Err(Error::EmptyCriteria)));
    // The first invalid criterion's error is propagated.
    assert!(matches!(
        Criteria::new(vec![criterion("ok", num(1)), criterion("zero", num(0))]),
        Err(Error::InvalidCriterion)
    ));
    // An empty matrix is rejected.
    assert!(matches!(Matrix::new(vec![]), Err(Error::EmptyMatrix)));
    // A non-finite entry is rejected.
    assert!(matches!(
        Matrix::new(vec![vec![num(1), Number::non_finite()]]),
        Err(Error::NonFiniteValue)
    ));
    // Rows of differing lengths are rejected.
    assert!(matches!(
        Matrix::new(vec![row2([1, 2]), row1([3])]),
        Err(Error::DimensionMismatch)
    ));
    // Scoring a matrix against criteria of another width is rejected.
    let criteria = Criteria::new(vec![criterion("a", num(1))]).unwrap();
    let matrix = matrix_of(vec![row2([1, 2])]);
    assert!(matches!(
        rank_alternatives(&matrix, &criteria),
        Err(Error::DimensionMismatch)
    ));
    assert!(matches!(
        score_alternatives(&matrix, &criteria),
        Err(Error::DimensionMismatch)
    ));
}

#[test]
fn test_scores_single_criterion() {
    // One benefit criterion over [0] and [2]: the smaller alternative sits on
    // the anti-ideal point (score zero), the larger on the ideal point.
    let criteria = Criteria::new(vec![criterion("benefit", num(1))]).unwrap();
    let matrix = matrix_of(vec![row1([0]), row1([2])]);
    let scores = score_alternatives(&matrix, &criteria).unwrap();
    assert_eq!(scores.len(), 2);
    assert!(scores[0].is_zero_score());
    assert!(!scores[1].is_zero_score());
    assert!(scores[0].ranks_below(&scores[1]));
    assert!(!scores[1].ranks_below(&scores[0]));
    assert!(!scores[0].score_equals(&scores[1]));
    // The worst alternative coincides with the anti-ideal point, the best one
    // with the ideal point: one squared distance vanishes on each side.
    assert!(scores[0].d_worst_sq().is_zero());
    assert!(scores[1].d_best_sq().is_zero());
    assert!(!scores[0].d_best_sq().is_zero());
    assert!(!scores[1].d_worst_sq().is_zero());
}

#[test]
fn test_negative_denominator_input() {
    // `1 / -2` is the same value as `-1 / 2`.
    let criteria = Criteria::new(vec![criterion("benefit", num(1))]).unwrap();
    let left = matrix_of(vec![vec![ratio(1, -2)], vec![num(1)]]);
    let right = matrix_of(vec![vec![ratio(-1, 2)], vec![num(1)]]);
    assert_eq!(
        rank_alternatives(&left, &criteria).unwrap(),
        rank_alternatives(&right, &criteria).unwrap()
    );
    let sl = score_alternatives(&left, &criteria).unwrap();
    let sr = score_alternatives(&right, &criteria).unwrap();
    assert!(sl[0].score_equals(&sr[0]));
    assert!(sl[1].score_equals(&sr[1]));
}

#[test]
fn test_ties_break_by_index() {
    // Identical alternatives tie exactly; the ranking keeps their order.
    let criteria = Criteria::new(vec![
        criterion("a", num(2)),
        criterion("b", num(-3)),
    ])
    .unwrap();
    let matrix = matrix_of(vec![row2([5, 7]), row2([1, 2]), row2([5, 7])]);
    let ranking = ranked(&matrix, &criteria);
    let pos0 = ranking.iter().position(|&i| i == 0).unwrap();
    let pos2 = ranking.iter().position(|&i| i == 2).unwrap();
    assert!(pos0 < pos2);
    let scores = score_alternatives(&matrix, &criteria).unwrap();
    assert!(scores[0].score_equals(&scores[2]));
}

#[test]
fn test_monotonicity_benefit_criterion() {
    // Increasing one alternative's value on a benefit criterion cannot lower
    // its rank position.
    let criteria = Criteria::new(vec![
        criterion("benefit", num(1)),
        criterion("cost", num(-1)),
    ])
    .unwrap();
    let before = matrix_of(vec![row2([1, 3]), row2([2, 2]), row2([3, 1])]);
    let after = matrix_of(vec![row2([5, 3]), row2([2, 2]), row2([3, 1])]);
    let ranking_before = ranked(&before, &criteria);
    let ranking_after = ranked(&after, &criteria);
    let pos_before = ranking_before.iter().position(|&i| i == 0).unwrap();
    let pos_after = ranking_after.iter().position(|&i| i == 0).unwrap();
    assert!(pos_after <= pos_before);
    assert_eq!(ranking_before, vec![2, 1, 0]);
    assert_eq!(ranking_after, vec![2, 0, 1]);
}

#[test]
fn test_constant_column_is_irrelevant() {
    // A column that is constant across all alternatives does not change the
    // ranking: with or without it, the order is the same.
    let with_constant = Criteria::new(vec![
        criterion("signal", num(2)),
        criterion("noise", num(-7)),
    ])
    .unwrap();
    let without_constant = Criteria::new(vec![criterion("signal", num(2))]).unwrap();
    let wide = matrix_of(vec![row2([4, 9]), row2([1, 9]), row2([6, 9])]);
    let narrow = matrix_of(vec![row1([4]), row1([1]), row1([6])]);
    assert_eq!(
        ranked(&wide, &with_constant),
        ranked(&narrow, &without_constant)
    );
    assert_eq!(ranked(&narrow, &without_constant), vec![2, 0, 1]);
}

#[test]
fn test_scale_invariance_of_column() {
    // Scaling one column by a positive constant leaves the ranking unchanged.
    let criteria = Criteria::new(vec![
        criterion("a", num(3)),
        criterion("b", num(-2)),
    ])
    .unwrap();
    let base = matrix_of(vec![row2([7, 4]), row2([1, 1]), row2([-1, -1]), row2([4, 7])]);
    let scaled = matrix_of(vec![
        vec![num(7), num(4 * 1000)],
        vec![num(1), num(1000)],
        vec![num(-1), num(-1000)],
        vec![num(4), num(7 * 1000)],
    ]);
    assert_eq!(ranked(&base, &criteria), ranked(&scaled, &criteria));
}
