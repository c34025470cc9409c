//! Vector and matrix behavior on concrete values.

use page_rank_from_scratch::matrix::Matrix;
use page_rank_from_scratch::rational::Rat;
use page_rank_from_scratch::vector::Vector;
use page_rank_from_scratch::RankError;

fn r(n: i64, d: i64) -> Rat {
    Rat::new(n, d).expect("rational")
}

fn ri(n: i64) -> Rat {
    Rat::from_int(n)
}

fn vec_of(data: &[Rat]) -> Vector {
    Vector::from_data(data.to_vec())
}

fn from_cols(cols: &[Vector]) -> Matrix {
    Matrix::from_vectors(cols.to_vec()).expect("columns of equal length")
}

fn from_rows(rows: &[Vector]) -> Matrix {
    Matrix::from_rows(rows.to_vec()).expect("rows of equal length")
}

#[test]
fn regular_probability_vector() {
    let vector = vec_of(&[r(1, 10), r(1, 10), r(8, 10)]);
    let p_vector = vector.probability_vector().expect("Probability vector");
    assert!(p_vector.regular().is_some())
}

#[test]
fn nonregular_probability_vector() {
    let vector = vec_of(&[r(2, 10), r(0, 1), r(8, 10)]);
    let p_vector = vector.probability_vector().expect("Probability vector");
    assert!(p_vector.regular().is_none())
}

#[test]
fn vector_scalar_multiplication() {
    let vector = vec_of(&[ri(1), ri(2), ri(3)]);
    let vector = vector.scalar_multiply(&ri(3)).expect("scaled");
    assert_eq!(vector, vec_of(&[ri(3), ri(6), ri(9)]))
}

#[test]
fn vector_addition() {
    let vector = vec_of(&[ri(1), ri(2), ri(3)]);
    let vector = vector.vector_addition(&vector).expect("sum");
    assert_eq!(vector, vec_of(&[ri(2), ri(4), ri(6)]))
}

#[test]
fn vector_subtraction() {
    let vector = vec_of(&[ri(1), ri(2), ri(3)]);
    let vector = vector.vector_subtraction(&vector).expect("difference");
    assert_eq!(vector, vec_of(&[ri(0), ri(0), ri(0)]))
}

#[test]
fn vector_dimension_mismatch() {
    let a = vec_of(&[ri(1), ri(2)]);
    let b = vec_of(&[ri(1), ri(2), ri(3)]);
    assert_eq!(a.vector_addition(&b), Err(RankError::DimensionMismatch));
    assert_eq!(a.vector_subtraction(&b), Err(RankError::DimensionMismatch));
}

#[test]
fn vector_not_a_probability_distribution() {
    let short = vec_of(&[r(1, 2), r(1, 4)]);
    assert_eq!(
        short.probability_vector(),
        Err(RankError::NotAProbabilityDistribution)
    );
    let negative = vec_of(&[r(3, 2), r(-1, 2)]);
    assert_eq!(
        negative.probability_vector(),
        Err(RankError::NotAProbabilityDistribution)
    );
}

#[test]
fn scalar_overflow_reported() {
    let big = vec_of(&[ri(4_000_000_000)]);
    assert_eq!(
        big.scalar_multiply(&ri(4_000_000_000)),
        Err(RankError::NumericOverflow)
    );
}

#[test]
fn column_vectors() {
    let matrix = from_rows(&[vec_of(&[ri(1), ri(2)]), vec_of(&[ri(1), ri(2)])]);

    let vec_space = matrix.column_vectors();
    assert_eq!(
        vec_space,
        vec![vec_of(&[ri(1), ri(1)]), vec_of(&[ri(2), ri(2)])]
    )
}

#[test]
fn stochastic_matrix() {
    let matrix = from_rows(&[vec_of(&[r(5, 10), r(2, 10)]), vec_of(&[r(5, 10), r(8, 10)])]);

    let non_stochastic_matrix = from_rows(&[vec_of(&[ri(1), ri(2)]), vec_of(&[ri(1), ri(2)])]);

    assert!(matrix.stochastic_matrix().is_ok());
    assert!(non_stochastic_matrix.stochastic_matrix().is_err())
}

#[test]
fn stochastic_rejects_columns_off_by_a_tenth() {
    let low = from_cols(&[vec_of(&[r(5, 10), r(4, 10)]), vec_of(&[r(5, 10), r(5, 10)])]);
    assert_eq!(
        low.stochastic_matrix().unwrap_err(),
        RankError::NotColumnStochastic
    );
    let high = from_cols(&[vec_of(&[r(6, 10), r(5, 10)]), vec_of(&[r(5, 10), r(5, 10)])]);
    assert_eq!(
        high.stochastic_matrix().unwrap_err(),
        RankError::NotColumnStochastic
    );
}

#[test]
fn matrix_scalar_multiplication() {
    let matrix = from_cols(&[vec_of(&[ri(1), ri(2)]), vec_of(&[ri(1), ri(2)])]);
    let matrix = matrix.scalar_multiply(&ri(2)).expect("scaled");

    assert_eq!(
        matrix,
        from_cols(&[vec_of(&[ri(2), ri(4)]), vec_of(&[ri(2), ri(4)])])
    )
}

#[test]
fn matrix_addition() {
    let matrix = from_cols(&[vec_of(&[ri(1), ri(2)]), vec_of(&[ri(1), ri(2)])]);
    let matrix = matrix.matrix_addition(&matrix).expect("sum");

    assert_eq!(
        matrix,
        from_cols(&[vec_of(&[ri(2), ri(4)]), vec_of(&[ri(2), ri(4)])])
    )
}

#[test]
fn matrix_subtraction() {
    let matrix = from_cols(&[vec_of(&[ri(1), ri(2)]), vec_of(&[ri(1), ri(2)])]);
    let matrix = matrix.matrix_subtraction(&matrix).expect("difference");

    assert_eq!(
        matrix,
        from_cols(&[vec_of(&[ri(0), ri(0)]), vec_of(&[ri(0), ri(0)])])
    )
}

#[test]
fn matrix_dimension_mismatch() {
    let a = Matrix::zero_matrix(2, 2);
    let b = Matrix::zero_matrix(2, 3);
    assert_eq!(a.matrix_addition(&b), Err(RankError::DimensionMismatch));
}

#[test]
fn from_data_checks_length() {
    let data = vec![ri(1), ri(2), ri(3), ri(4), ri(5)];
    assert_eq!(
        Matrix::from_data(data, 2, 3),
        Err(RankError::DimensionMismatch)
    );
    let good = vec![ri(1), ri(2), ri(3), ri(4), ri(5), ri(6)];
    let m = Matrix::from_data(good, 2, 3).expect("fits");
    assert_eq!(m.get(0, 0), ri(1));
    assert_eq!(m.get(0, 2), ri(3));
    assert_eq!(m.get(1, 0), ri(4));
}

#[test]
fn from_rows_checks_row_lengths() {
    let rows = vec![vec_of(&[ri(1), ri(2)]), vec_of(&[ri(1)])];
    assert!(Matrix::from_rows(rows).is_err());
}

#[test]
fn identity_matrix() {
    let identity = Matrix::identity(2);

    assert_eq!(
        identity.general(),
        from_cols(&[vec_of(&[ri(1), ri(0)]), vec_of(&[ri(0), ri(1)])])
    )
}

#[test]
fn reduce_row_echelon_form() {
    let input = from_cols(&[
        vec_of(&[ri(1), ri(2)]),
        vec_of(&[ri(5), ri(11)]),
        vec_of(&[ri(1), ri(5)]),
    ]);

    let expected = from_cols(&[
        vec_of(&[ri(1), ri(0)]),
        vec_of(&[ri(0), ri(1)]),
        vec_of(&[ri(-14), ri(3)]),
    ]);

    let reduced = input.reduced_row_echelon().expect("reduced");
    assert_eq!(reduced.general(), expected)
}

#[test]
fn null_space() {
    let input = from_cols(&[
        vec_of(&[ri(1), ri(2)]),
        vec_of(&[ri(5), ri(11)]),
        vec_of(&[ri(1), ri(5)]),
    ]);

    let null_space = input.null_space().expect("basis");
    assert_eq!(null_space, vec![vec_of(&[ri(14), ri(-3), ri(1)])])
}

#[test]
fn identity_matrix_is_reduced_row_echelon() {
    let reduced = Matrix::identity(3).general().reduced_row_echelon().expect("reduced");
    let identity = Matrix::identity(3);

    assert_eq!(reduced.general(), identity.general())
}

#[test]
fn rref_reorders_rows_by_pivot_column() {
    // rows [0,1] and [1,0] come back as the identity: pivot columns
    // must strictly increase down the rows
    let input = from_rows(&[vec_of(&[ri(0), ri(1)]), vec_of(&[ri(1), ri(0)])]);
    let reduced = input.reduced_row_echelon().expect("reduced");
    assert_eq!(reduced.general(), Matrix::identity(2).general());
}

#[test]
fn rref_sinks_zero_rows_to_the_bottom() {
    let input = from_rows(&[
        vec_of(&[ri(0), ri(0)]),
        vec_of(&[ri(0), ri(3)]),
        vec_of(&[ri(2), ri(0)]),
    ]);
    let reduced = input.reduced_row_echelon().expect("reduced").general();
    let expected = from_rows(&[
        vec_of(&[ri(1), ri(0)]),
        vec_of(&[ri(0), ri(1)]),
        vec_of(&[ri(0), ri(0)]),
    ]);
    assert_eq!(reduced, expected);
}

#[test]
fn rref_is_idempotent_beyond_the_identity() {
    let input = from_cols(&[
        vec_of(&[ri(1), ri(2)]),
        vec_of(&[ri(5), ri(11)]),
        vec_of(&[ri(1), ri(5)]),
    ]);
    let once = input.reduced_row_echelon().expect("reduced").general();
    let twice = once.reduced_row_echelon().expect("reduced").general();
    assert_eq!(once, twice)
}

#[test]
fn matrix_multiplication_concrete() {
    // [[1, 2], [3, 4]] times [[5, 6], [7, 8]] is [[19, 22], [43, 50]]
    let a = Matrix::from_data(vec![ri(1), ri(2), ri(3), ri(4)], 2, 2).expect("a");
    let b = Matrix::from_data(vec![ri(5), ri(6), ri(7), ri(8)], 2, 2).expect("b");
    let c = a.matrix_multiply(&b).expect("product");
    let expected = Matrix::from_data(vec![ri(19), ri(22), ri(43), ri(50)], 2, 2).expect("c");
    assert_eq!(c, expected);
}

#[test]
fn rational_arithmetic_is_exact() {
    // a tenth added ten times is exactly one
    let tenth = r(1, 10);
    let mut acc = Rat::zero();
    for _ in 0..10 {
        acc = acc.checked_add(&tenth).expect("sum");
    }
    assert!(acc.is_one());
    assert_eq!(acc.numer(), 1);
    assert_eq!(acc.denom(), 1);
    // reduced representation: 2/4 equals 1/2
    assert_eq!(r(2, 4), r(1, 2));
    assert!(Rat::new(1, 0).is_none());
}
