use ml_talk::cholesky::{MatrixError, NaiveMatrix};
use ml_talk::scalar::{Scalar, UnitSample};

#[derive(Debug, Clone, Copy, PartialEq)]
struct Real(f64);

impl Scalar for Real {
    fn spec_zero() -> Self {
        Real(0.0)
    }

    fn spec_plus(self, other: Self) -> Self {
        Real(self.0 + other.0)
    }

    fn spec_minus(self, other: Self) -> Self {
        Real(self.0 - other.0)
    }

    fn spec_times(self, other: Self) -> Self {
        Real(self.0 * other.0)
    }

    fn spec_divide(self, other: Self) -> Self {
        Real(self.0 / other.0)
    }

    fn spec_sqrt(self) -> Self {
        Real(self.0.sqrt())
    }

    fn spec_is_positive(self) -> bool {
        self.0 > 0.0
    }

    fn zero() -> Self {
        Self::spec_zero()
    }

    fn plus(self, other: Self) -> Self {
        self.spec_plus(other)
    }

    fn minus(self, other: Self) -> Self {
        self.spec_minus(other)
    }

    fn times(self, other: Self) -> Self {
        self.spec_times(other)
    }

    fn divide(self, other: Self) -> Self {
        self.spec_divide(other)
    }

    fn sqrt(self) -> Self {
        self.spec_sqrt()
    }

    fn is_positive(self) -> bool {
        self.spec_is_positive()
    }
}

impl UnitSample for Real {
    fn sample_unit() -> Self {
        Real(rand::random::<f64>())
    }
}

fn matrix(nrows: usize, ncols: usize, values: &[f64]) -> NaiveMatrix<Real> {
    NaiveMatrix::from_vec(nrows, ncols, values.iter().map(|v| Real(*v)).collect())
}

fn lower_factor(m: &NaiveMatrix<Real>) -> NaiveMatrix<Real> {
    let mut l = m.clone();
    for c in 0..l.ncols() {
        for r in 0..c {
            l.set(r, c, Real(0.0));
        }
    }
    l
}

fn assert_close(a: &NaiveMatrix<Real>, b: &NaiveMatrix<Real>, tol: f64) {
    assert_eq!(a.nrows(), b.nrows());
    assert_eq!(a.ncols(), b.ncols());
    for c in 0..a.ncols() {
        for r in 0..a.nrows() {
            assert!((a.get(r, c).0 - b.get(r, c).0).abs() < tol);
        }
    }
}

#[test]
fn naive_cholesky() {
    let mut m = matrix(
        3,
        3,
        &[0.68862408, 1.14997528, 0.5580459, 1.14997528, 1.98713229, 0.90468023, 0.5580459, 0.90468023, 0.46998922],
    );
    let expected = matrix(3, 3, &[0.82, 1.38, 0.67, 1.14, 0.25, -0.10, 0.55, 0.90, 0.08]);
    assert_eq!(m.naive_cholesky(), Ok(()));
    for c in 0..3 {
        for r in 0..3 {
            assert!((m.get(r, c).0 - expected.get(r, c).0).abs() < 0.05);
        }
    }
}

#[test]
fn rand() {
    let m: NaiveMatrix<Real> = NaiveMatrix::rand(3, 3);
    for c in 0..3 {
        for r in 0..3 {
            assert!(m.get(r, c).0 != 0f64);
        }
    }
}

#[test]
fn transpose() {
    let m = matrix(2, 2, &[1.0, 3.0, 2.0, 4.0]);
    let expected = matrix(2, 2, &[1.0, 2.0, 3.0, 4.0]);
    let m_transposed = m.transpose();
    for c in 0..2 {
        for r in 0..2 {
            assert!(m_transposed.get(r, c) == expected.get(r, c));
        }
    }
}

#[test]
fn generate_positive_definite() {
    let mut m: NaiveMatrix<Real> = NaiveMatrix::generate_positive_definite(3, 3).unwrap();
    println!("{:?}", m);
    let chol = m.naive_cholesky();
    assert_eq!(chol, Ok(()));
}

#[test]
fn rand_values_lie_in_unit_interval() {
    let m: NaiveMatrix<Real> = NaiveMatrix::rand(4, 5);
    assert_eq!(m.nrows(), 4);
    assert_eq!(m.ncols(), 5);
    for c in 0..5 {
        for r in 0..4 {
            let v = m.get(r, c).0;
            assert!((0.0..1.0).contains(&v));
        }
    }
}

#[test]
fn from_vec_is_column_major() {
    let m = matrix(2, 3, &[1.0, 2.0, 3.0, 4.0, 5.0, 6.0]);
    assert_eq!(m.nrows(), 2);
    assert_eq!(m.ncols(), 3);
    assert_eq!(m.get(0, 0), Real(1.0));
    assert_eq!(m.get(1, 0), Real(2.0));
    assert_eq!(m.get(0, 1), Real(3.0));
    assert_eq!(m.get(1, 2), Real(6.0));
}

#[test]
fn set_changes_one_cell() {
    let mut m = matrix(2, 2, &[1.0, 2.0, 3.0, 4.0]);
    m.set(1, 0, Real(9.0));
    assert_eq!(m.get(1, 0), Real(9.0));
    assert_eq!(m.get(0, 0), Real(1.0));
    assert_eq!(m.get(0, 1), Real(3.0));
    assert_eq!(m.get(1, 1), Real(4.0));
}

#[test]
fn transpose_rectangular() {
    let m = matrix(2, 3, &[1.0, 2.0, 3.0, 4.0, 5.0, 6.0]);
    let t = m.transpose();
    assert_eq!(t.nrows(), 3);
    assert_eq!(t.ncols(), 2);
    for r in 0..2 {
        for c in 0..3 {
            assert_eq!(t.get(c, r), m.get(r, c));
        }
    }
    assert_eq!(t.get(2, 0), Real(5.0));
}

#[test]
fn transpose_twice_gives_back_the_matrix() {
    let m = matrix(3, 2, &[1.5, -2.0, 7.25, 0.0, 3.0, 9.0]);
    let tt = m.transpose().transpose();
    assert_eq!(tt.nrows(), 3);
    assert_eq!(tt.ncols(), 2);
    for c in 0..2 {
        for r in 0..3 {
            assert_eq!(tt.get(r, c), m.get(r, c));
        }
    }
}

#[test]
fn dot_dimension_mismatch() {
    let a = matrix(2, 3, &[1.0; 6]);
    let b = matrix(3, 2, &[1.0; 6]);
    assert_eq!(a.dot(b).unwrap_err(), MatrixError::DimensionMismatch);
}

#[test]
fn dot_values_and_shape() {
    // a = [[1,2],[3,4]], b = [[5,6],[7,8]] in row-major notation
    let a = matrix(2, 2, &[1.0, 3.0, 2.0, 4.0]);
    let b = matrix(2, 2, &[5.0, 7.0, 6.0, 8.0]);
    let p = a.dot(b).unwrap();
    assert_eq!(p.nrows(), 2);
    assert_eq!(p.ncols(), 2);
    assert_eq!(p.get(0, 0), Real(19.0));
    assert_eq!(p.get(0, 1), Real(22.0));
    assert_eq!(p.get(1, 0), Real(43.0));
    assert_eq!(p.get(1, 1), Real(50.0));
}

#[test]
fn dot_with_taller_right_operand() {
    // a is 1x2, b is 3x2: the sum runs over a's two columns
    let a = matrix(1, 2, &[1.0, 2.0]);
    let b = matrix(3, 2, &[3.0, 4.0, 5.0, 6.0, 7.0, 8.0]);
    let p = a.dot(b).unwrap();
    assert_eq!(p.nrows(), 1);
    assert_eq!(p.ncols(), 2);
    assert_eq!(p.get(0, 0), Real(1.0 * 3.0 + 2.0 * 4.0));
    assert_eq!(p.get(0, 1), Real(1.0 * 6.0 + 2.0 * 7.0));
}

#[test]
fn product_with_transpose_of_non_square_fails() {
    let m = matrix(2, 3, &[1.0; 6]);
    assert_eq!(
        NaiveMatrix::product_with_transpose(&m).unwrap_err(),
        MatrixError::DimensionMismatch
    );
}

#[test]
fn generate_positive_definite_non_square_fails() {
    let r: Result<NaiveMatrix<Real>, MatrixError> = NaiveMatrix::generate_positive_definite(2, 3);
    assert_eq!(r.unwrap_err(), MatrixError::DimensionMismatch);
}

#[test]
fn cholesky_rejects_non_square_without_change() {
    let values = [4.0, 2.0, 2.0, 3.0, 1.0, 1.0];
    let mut m = matrix(2, 3, &values);
    assert_eq!(m.naive_cholesky(), Err(MatrixError::NotSquareError));
    for c in 0..3 {
        for r in 0..2 {
            assert_eq!(m.get(r, c), Real(values[c * 2 + r]));
        }
    }
}

#[test]
fn cholesky_rejects_negative_scalar() {
    let mut m = matrix(1, 1, &[-1.0]);
    assert_eq!(m.naive_cholesky(), Err(MatrixError::NotPositiveDefiniteError));
}

#[test]
fn cholesky_rejects_indefinite() {
    let mut m = matrix(2, 2, &[1.0, 2.0, 2.0, 1.0]);
    assert_eq!(m.naive_cholesky(), Err(MatrixError::NotPositiveDefiniteError));
}

#[test]
fn cholesky_rejects_nan() {
    let mut m = matrix(1, 1, &[f64::NAN]);
    assert_eq!(m.naive_cholesky(), Err(MatrixError::NotPositiveDefiniteError));
}

#[test]
fn cholesky_of_empty_matrix_succeeds() {
    let mut m = matrix(0, 0, &[]);
    assert_eq!(m.naive_cholesky(), Ok(()));
}

#[test]
fn cholesky_exact_factor() {
    // [[4,2],[2,5]] = L * Lt with L = [[2,0],[1,2]]
    let mut m = matrix(2, 2, &[4.0, 2.0, 2.0, 5.0]);
    assert_eq!(m.naive_cholesky(), Ok(()));
    assert_eq!(m.get(0, 0), Real(2.0));
    assert_eq!(m.get(1, 0), Real(1.0));
    assert_eq!(m.get(1, 1), Real(2.0));
}

#[test]
fn cholesky_leaves_upper_triangle() {
    let mut m = matrix(3, 3, &[25.0, 15.0, -5.0, 15.0, 18.0, 0.0, -5.0, 0.0, 11.0]);
    assert_eq!(m.naive_cholesky(), Ok(()));
    assert_eq!(m.get(0, 1), Real(15.0));
    assert_eq!(m.get(0, 2), Real(-5.0));
    assert_eq!(m.get(1, 2), Real(0.0));
    // L = [[5,0,0],[3,3,0],[-1,1,3]]
    assert_eq!(m.get(0, 0), Real(5.0));
    assert_eq!(m.get(1, 0), Real(3.0));
    assert_eq!(m.get(2, 0), Real(-1.0));
    assert_eq!(m.get(1, 1), Real(3.0));
    assert_eq!(m.get(2, 1), Real(1.0));
    assert_eq!(m.get(2, 2), Real(3.0));
}

#[test]
fn cholesky_round_trip_fixed() {
    let f = matrix(3, 3, &[0.3, 0.9, 0.1, 0.7, 0.2, 0.8, 0.5, 0.6, 0.4]);
    let a = NaiveMatrix::product_with_transpose(&f).unwrap();
    let mut m = a.clone();
    assert_eq!(m.naive_cholesky(), Ok(()));
    let l = lower_factor(&m);
    let back = NaiveMatrix::product_with_transpose(&l).unwrap();
    assert_close(&back, &a, 1e-6);
}

#[test]
fn cholesky_round_trip_random() {
    let a: NaiveMatrix<Real> = NaiveMatrix::generate_positive_definite(5, 5).unwrap();
    let mut m = a.clone();
    assert_eq!(m.naive_cholesky(), Ok(()));
    let l = lower_factor(&m);
    let back = NaiveMatrix::product_with_transpose(&l).unwrap();
    assert_close(&back, &a, 1e-6);
}

#[test]
fn cholesky_ignores_upper_triangle() {
    let mut sym = matrix(3, 3, &[25.0, 15.0, -5.0, 15.0, 18.0, 0.0, -5.0, 0.0, 11.0]);
    let mut skewed = matrix(3, 3, &[25.0, 15.0, -5.0, 99.0, 18.0, 0.0, -7.5, f64::NAN, 11.0]);
    assert_eq!(sym.naive_cholesky(), Ok(()));
    assert_eq!(skewed.naive_cholesky(), Ok(()));
    for c in 0..3 {
        for r in c..3 {
            assert_eq!(sym.get(r, c), skewed.get(r, c));
        }
    }
    assert_eq!(skewed.get(0, 1), Real(99.0));
}

#[test]
fn cholesky_failure_comes_at_first_bad_candidate() {
    // [[4,2],[2,1]]: the first candidate is 4, the second 1 - 1 = 0
    let mut m = matrix(2, 2, &[4.0, 2.0, 2.0, 1.0]);
    assert_eq!(m.naive_cholesky(), Err(MatrixError::NotPositiveDefiniteError));
    assert_eq!(m.get(0, 0), Real(2.0));
    assert_eq!(m.get(1, 0), Real(1.0));
    assert_eq!(m.get(1, 1), Real(1.0));
}
