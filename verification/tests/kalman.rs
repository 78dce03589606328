use kalman_filter::filter::KalmanError;
use kalman_filter::filter::KalmanFilter;
use kalman_filter::matrix::Matrix;
use kalman_filter::matrix::invert;
use kalman_filter::rational::Rational;

fn rat(n: i64, d: i64) -> Rational {
    Rational::new(n, d).unwrap()
}

fn mat(rows: &[&[(i64, i64)]]) -> Matrix {
    let cols = rows[0].len();
    let mut out: Vec<Vec<Rational>> = Vec::new();
    for row in rows {
        let mut r: Vec<Rational> = Vec::new();
        for &(n, d) in row.iter() {
            r.push(rat(n, d));
        }
        out.push(r);
    }
    Matrix::from_rows(cols, out).unwrap()
}

fn ints(rows: &[&[i64]]) -> Matrix {
    let cols = rows[0].len();
    let mut out: Vec<Vec<Rational>> = Vec::new();
    for row in rows {
        let mut r: Vec<Rational> = Vec::new();
        for &n in row.iter() {
            r.push(Rational::from_int(n));
        }
        out.push(r);
    }
    Matrix::from_rows(cols, out).unwrap()
}

#[test]
fn rational_rejects_zero_denominator() {
    assert!(Rational::new(1, 0).is_none());
    assert!(Rational::new(0, 0).is_none());
    assert!(Rational::new(3, -2).is_some());
}

#[test]
fn rational_arithmetic_is_exact() {
    let a = rat(1, 3);
    let b = rat(1, 6);
    assert!(a.add(&b).eq_value(&rat(1, 2)));
    assert!(a.sub(&b).eq_value(&rat(1, 6)));
    assert!(a.mul(&b).eq_value(&rat(1, 18)));
    assert!(rat(2, 4).eq_value(&rat(1, 2)));
    assert!(!rat(2, 4).eq_value(&rat(1, 3)));
    assert!(rat(0, 5).is_zero());
    assert!(!rat(5, 5).is_zero());
    assert!(rat(2, 3).recip().unwrap().eq_value(&rat(3, 2)));
    assert!(rat(0, 3).recip().is_none());
}

#[test]
fn from_rows_rejects_ragged_input() {
    let rows = vec![vec![rat(1, 1), rat(2, 1)], vec![rat(3, 1)]];
    assert!(Matrix::from_rows(2, rows).is_none());
}

#[test]
fn invert_diagonal_matrix() {
    let a = ints(&[&[2, 0], &[0, 4]]);
    let inv = invert(&a).unwrap();
    let expected = mat(&[&[(1, 2), (0, 1)], &[(0, 1), (1, 4)]]);
    assert!(inv.eq_value(&expected));
}

#[test]
fn invert_rejects_singular_matrix() {
    let a = ints(&[&[1, 2], &[2, 4]]);
    assert!(invert(&a).is_none());
    let z = ints(&[&[0, 0], &[0, 0]]);
    assert!(invert(&z).is_none());
}

#[test]
fn invert_needs_row_exchange() {
    let a = ints(&[&[0, 1], &[1, 0]]);
    let inv = invert(&a).unwrap();
    assert!(inv.eq_value(&a));
}

#[test]
fn predict_state_is_linear_in_state() {
    let f = ints(&[&[1, 2], &[3, 4]]);
    let q = ints(&[&[1, 0], &[0, 1]]);
    let r = ints(&[&[1, 0], &[0, 1]]);
    let k = KalmanFilter::new(f, q, r).unwrap();
    let x = ints(&[&[1], &[2]]);
    let p = ints(&[&[1, 0], &[0, 1]]);
    let a = rat(3, 1);
    let (x_pred, _) = k.predict(&x, &p).unwrap();
    let (x_pred_scaled, _) = k.predict(&x.scale(&a), &p).unwrap();
    assert!(x_pred_scaled.eq_value(&x_pred.scale(&a)));
}

#[test]
fn predict_covariance_grows_by_q() {
    let f = Matrix::identity(2);
    let q = mat(&[&[(1, 100), (0, 1)], &[(0, 1), (1, 100)]]);
    let r = ints(&[&[1, 0], &[0, 1]]);
    let p = mat(&[&[(1, 1), (1, 2)], &[(1, 2), (1, 1)]]);
    let x = ints(&[&[5], &[7]]);
    let k = KalmanFilter::new(f, q.dup(), r).unwrap();
    let (_, p_pred) = k.predict(&x, &p).unwrap();
    // with F = I the predicted covariance is exactly P + Q
    assert!(p_pred.eq_value(&p.add(&q)));
    // and in general P_pred - Q equals F * P * transpose(F)
    let f2 = ints(&[&[1, 1], &[0, 1]]);
    let k2 = KalmanFilter::new(
        f2.dup(),
        q.dup(),
        ints(&[&[1, 0], &[0, 1]]),
    )
    .unwrap();
    let (_, p_pred2) = k2.predict(&x, &p).unwrap();
    let fpft = f2.mul(&p).mul(&f2.transpose());
    assert!(p_pred2.sub(&q).eq_value(&fpft));
}

#[test]
fn update_with_zero_innovation_keeps_state() {
    let f = ints(&[&[1, 1], &[0, 1]]);
    let q = mat(&[&[(1, 10), (0, 1)], &[(0, 1), (1, 10)]]);
    let r = mat(&[&[(1, 2), (0, 1)], &[(0, 1), (1, 2)]]);
    let k = KalmanFilter::new(f, q, r).unwrap();
    let x_pred = ints(&[&[4], &[9]]);
    let p_pred = ints(&[&[2, 1], &[1, 3]]);
    let z = ints(&[&[4], &[9]]);
    let (x_new, _) = k.update(&x_pred, &p_pred, &z).unwrap();
    assert!(x_new.eq_value(&x_pred));
}

#[test]
fn noop_model_is_idempotent() {
    let f = Matrix::identity(2);
    let q = Matrix::zero(2, 2);
    let r = Matrix::zero(2, 2);
    let k = KalmanFilter::new(f, q, r).unwrap();
    let x = ints(&[&[3], &[8]]);
    let p = mat(&[&[(2, 1), (1, 3)], &[(1, 3), (5, 1)]]);
    let (x1, p1) = k.predict(&x, &p).unwrap();
    let (x2, p2) = k.predict(&x1, &p1).unwrap();
    assert!(x1.eq_value(&x));
    assert!(p1.eq_value(&p));
    assert!(x2.eq_value(&x));
    assert!(p2.eq_value(&p));
}

#[test]
fn singular_innovation_covariance_is_detected() {
    let f = Matrix::identity(2);
    let q = Matrix::zero(2, 2);
    let r = Matrix::zero(2, 2);
    let k = KalmanFilter::new(f, q, r).unwrap();
    let x_pred = ints(&[&[1], &[2]]);
    let p_pred = Matrix::zero(2, 2);
    let z = ints(&[&[3], &[4]]);
    let res = k.update(&x_pred, &p_pred, &z);
    assert!(matches!(res, Err(KalmanError::SingularInnovationCovariance)));
}

#[test]
fn one_dimensional_tracking_scenario() {
    // constant-position tracking: F = [1], Q = [0.01], R = [0.1]
    let f = ints(&[&[1]]);
    let q = mat(&[&[(1, 100)]]);
    let r = mat(&[&[(1, 10)]]);
    let k = KalmanFilter::new(f, q, r).unwrap();
    let x = ints(&[&[0]]);
    let p = ints(&[&[1]]);
    let (x_pred, p_pred) = k.predict(&x, &p).unwrap();
    assert!(x_pred.eq_value(&ints(&[&[0]])));
    assert!(p_pred.eq_value(&mat(&[&[(101, 100)]])));
    let z = ints(&[&[1]]);
    let (x_new, p_new) = k.update(&x_pred, &p_pred, &z).unwrap();
    // S = 1.01 + 0.1 = 111/100, K = (101/100) / (111/100) = 101/111
    assert!(x_new.eq_value(&mat(&[&[(101, 111)]])));
    // P_new = K * P_pred = (101/111) * (101/100) = 10201/11100
    assert!(p_new.eq_value(&mat(&[&[(10201, 11100)]])));
}

#[test]
fn constructor_rejects_mismatched_dimensions() {
    let f = ints(&[&[1, 0], &[0, 1]]);
    let q = ints(&[&[1, 0, 0], &[0, 1, 0], &[0, 0, 1]]);
    let r = ints(&[&[1, 0], &[0, 1]]);
    let res = KalmanFilter::new(f, q, r);
    assert!(matches!(res, Err(KalmanError::DimensionMismatch)));
    let f2 = ints(&[&[1, 0, 0], &[0, 1, 0]]);
    let sq = ints(&[&[1, 0], &[0, 1]]);
    let res2 = KalmanFilter::new(f2, sq.dup(), sq);
    assert!(matches!(res2, Err(KalmanError::DimensionMismatch)));
}

#[test]
fn operations_reject_mismatched_dimensions() {
    let f = ints(&[&[1, 0], &[0, 1]]);
    let q = ints(&[&[1, 0], &[0, 1]]);
    let r = ints(&[&[1, 0], &[0, 1]]);
    let k = KalmanFilter::new(f, q, r).unwrap();
    let x3 = ints(&[&[1], &[2], &[3]]);
    let p2 = ints(&[&[1, 0], &[0, 1]]);
    assert!(matches!(
        k.predict(&x3, &p2),
        Err(KalmanError::DimensionMismatch)
    ));
    let x2 = ints(&[&[1], &[2]]);
    let row = ints(&[&[1, 2]]);
    assert!(matches!(
        k.predict(&x2, &row),
        Err(KalmanError::DimensionMismatch)
    ));
    assert!(matches!(
        k.update(&x3, &p2, &x3),
        Err(KalmanError::DimensionMismatch)
    ));
}

#[test]
fn update_blends_prediction_and_measurement() {
    let f = Matrix::identity(2);
    let q = Matrix::zero(2, 2);
    let r = Matrix::identity(2);
    let k = KalmanFilter::new(f, q, r).unwrap();
    let x_pred = ints(&[&[0], &[0]]);
    let p_pred = Matrix::identity(2);
    let z = ints(&[&[2], &[4]]);
    // S = 2I, K = I/2, so the correction is half the innovation
    let (x_new, p_new) = k.update(&x_pred, &p_pred, &z).unwrap();
    assert!(x_new.eq_value(&ints(&[&[1], &[2]])));
    assert!(p_new.eq_value(&mat(&[&[(1, 2), (0, 1)], &[(0, 1), (1, 2)]])));
}

#[test]
fn invert_three_by_three() {
    let a = ints(&[&[1, 2, 0], &[0, 1, 0], &[0, 0, 2]]);
    let inv = invert(&a).unwrap();
    let expected = mat(&[
        &[(1, 1), (-2, 1), (0, 1)],
        &[(0, 1), (1, 1), (0, 1)],
        &[(0, 1), (0, 1), (1, 2)],
    ]);
    assert!(inv.eq_value(&expected));
}
