use linear_regression::regression::{InputNumbers, RegressionError, MAX_COUNT};

fn sample(x: &[i32], y: &[i32]) -> InputNumbers {
    InputNumbers::new(x.to_vec(), y.to_vec())
}

/// Reference least-squares fit, computed independently in floating point from the
/// centred formulation.
fn reference_fit(x: &[i32], y: &[i32]) -> (f64, f64) {
    let n = x.len() as f64;
    let mx = x.iter().map(|&v| v as f64).sum::<f64>() / n;
    let my = y.iter().map(|&v| v as f64).sum::<f64>() / n;
    let mut num = 0.0;
    let mut den = 0.0;
    for i in 0..x.len() {
        num += (x[i] as f64 - mx) * (y[i] as f64 - my);
        den += (x[i] as f64 - mx) * (x[i] as f64 - mx);
    }
    let slope = num / den;
    (my - slope * mx, slope)
}

#[test]
fn mean_of_empty_sample_is_an_error() {
    let s = sample(&[], &[]);
    assert_eq!(s.find_mean(), Err(RegressionError::EmptySample));
}

#[test]
fn mean_is_exact() {
    let s = sample(&[1, 2, 4], &[3, 5, 10]);
    let (mx, my) = s.find_mean().unwrap();
    assert_eq!((mx.num, mx.den), (7, 3));
    assert_eq!((my.num, my.den), (18, 3));
}

#[test]
fn fit_with_constant_x_is_degenerate() {
    let s = sample(&[5, 5, 5], &[1, 2, 3]);
    assert_eq!(s.find_intercept_and_slope(), Err(RegressionError::DegenerateFit));
}

#[test]
fn fit_of_empty_sample_is_an_error() {
    let s = sample(&[], &[]);
    assert_eq!(s.find_intercept_and_slope(), Err(RegressionError::EmptySample));
    assert_eq!(s.calculate_score(), Err(RegressionError::EmptySample));
}

#[test]
fn fit_of_single_point_is_degenerate() {
    let s = sample(&[4], &[9]);
    assert_eq!(s.find_intercept_and_slope(), Err(RegressionError::DegenerateFit));
}

#[test]
fn score_with_constant_y_is_degenerate() {
    let s = sample(&[1, 2, 3], &[7, 7, 7]);
    assert_eq!(s.calculate_score(), Err(RegressionError::DegenerateScore));
}

#[test]
fn score_with_constant_x_is_a_degenerate_fit() {
    let s = sample(&[2, 2, 2], &[1, 5, 9]);
    assert_eq!(s.calculate_score(), Err(RegressionError::DegenerateFit));
}

#[test]
fn rmse_with_wrong_length_is_mismatch() {
    let s = sample(&[1, 2, 3], &[1, 2, 3]);
    let predicted = vec![1.0f64, 2.0];
    assert_eq!(s.prediction_count(predicted.len()), Err(RegressionError::LengthMismatch));
}

#[test]
fn prediction_count_matches_sample() {
    let s = sample(&[1, 2, 3], &[1, 2, 3]);
    assert_eq!(s.prediction_count(3), Ok(3));
    let e = sample(&[], &[]);
    assert_eq!(e.prediction_count(0), Err(RegressionError::EmptySample));
    assert_eq!(e.prediction_count(1), Err(RegressionError::LengthMismatch));
}

#[test]
fn squares_scenario() {
    let x = [1, 2, 3, 4, 5, 6, 7, 8];
    let y = [1, 4, 9, 16, 25, 36, 49, 64];
    let s = sample(&x, &y);
    let f = s.find_intercept_and_slope().unwrap();
    assert_eq!((f.count, f.sum_x, f.sum_y), (8, 36, 204));
    assert_eq!((f.var_x, f.cov_xy), (336, 3024));
    let slope = f.cov_xy as f64 / f.var_x as f64;
    let intercept = (f.sum_y * f.var_x - f.cov_xy * f.sum_x) as f64 / (f.count * f.var_x) as f64;
    let (ref_intercept, ref_slope) = reference_fit(&x, &y);
    assert!((slope - ref_slope).abs() < 1e-9);
    assert!((intercept - ref_intercept).abs() < 1e-9);
    assert_eq!(slope, 9.0);
    assert_eq!(intercept, -15.0);

    let held_out = sample(&[10], &[100]);
    let count = held_out.prediction_count(1).unwrap();
    let predicted = intercept + slope * held_out.x_values()[0] as f64;
    let err = predicted - held_out.y_values()[0] as f64;
    let rmse = (err * err / count as f64).sqrt();
    assert_eq!(rmse, 25.0);
    assert!(rmse > 0.0);

    let score = s.calculate_score().unwrap();
    assert_eq!((score.cov_xy, score.var_x, score.var_y), (3024, 336, 28560));
    let r2 = (score.cov_xy * score.cov_xy) as f64 / (score.var_x * score.var_y) as f64;
    assert!((r2 - 9144576.0 / 9596160.0).abs() < 1e-12);
}

#[test]
fn exact_line_scores_one() {
    let s = sample(&[1, 2, 3], &[3, 5, 7]);
    let f = s.find_intercept_and_slope().unwrap();
    assert_eq!((f.var_x, f.cov_xy), (6, 12));
    // intercept 1, slope 2
    assert_eq!(f.sum_y * f.var_x - f.cov_xy * f.sum_x, f.count * f.var_x);
    assert_eq!(f.cov_xy, 2 * f.var_x);
    let sc = s.calculate_score().unwrap();
    assert_eq!(sc.cov_xy * sc.cov_xy, sc.var_x * sc.var_y);
    let slope = f.cov_xy as f64 / f.var_x as f64;
    let intercept = (f.sum_y * f.var_x - f.cov_xy * f.sum_x) as f64 / (f.count * f.var_x) as f64;
    let mut total = 0.0;
    for i in 0..3 {
        let e = intercept + slope * s.x_values()[i] as f64 - s.y_values()[i] as f64;
        total += e * e;
    }
    assert_eq!((total / 3.0f64).sqrt(), 0.0);
}

#[test]
fn noisy_score_is_between_zero_and_one() {
    let s = sample(&[1, 2, 3, 4, 5], &[2, 1, 4, 3, 6]);
    let sc = s.calculate_score().unwrap();
    let num = sc.cov_xy * sc.cov_xy;
    let den = sc.var_x * sc.var_y;
    assert!(den > 0);
    assert!(0 <= num && num < den);
    assert_eq!((sc.cov_xy, sc.var_x, sc.var_y), (50, 50, 74));
}

#[test]
fn extreme_values_do_not_overflow() {
    let x = [i32::MIN, i32::MAX, i32::MIN, 0];
    let y = [i32::MAX, i32::MIN, i32::MIN, 7];
    let s = sample(&x, &y);
    let m = s.moments();
    let xi: Vec<i128> = x.iter().map(|&v| v as i128).collect();
    let yi: Vec<i128> = y.iter().map(|&v| v as i128).collect();
    let sx: i128 = xi.iter().sum();
    let sy: i128 = yi.iter().sum();
    let sxx: i128 = xi.iter().map(|v| v * v).sum();
    let sxy: i128 = xi.iter().zip(yi.iter()).map(|(a, b)| a * b).sum();
    assert_eq!((m.sum_x, m.sum_y, m.sum_xx, m.sum_xy), (sx, sy, sxx, sxy));
    let f = s.find_intercept_and_slope().unwrap();
    assert_eq!(f.var_x, 4 * sxx - sx * sx);
    assert_eq!(f.cov_xy, 4 * sxy - sx * sy);
}

#[test]
fn length_and_views() {
    let s = sample(&[1, 2], &[3, 4]);
    assert_eq!(s.len(), 2);
    assert_eq!(s.x_values(), &vec![1, 2]);
    assert_eq!(s.y_values(), &vec![3, 4]);
    assert_eq!(MAX_COUNT, u32::MAX as usize);
}
