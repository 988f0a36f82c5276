use blas_level1::{accumulate, dot, slot, step_of, storage_len};
use num_complex::Complex;

fn real_dot(n: isize, x: &[f64], incx: isize, y: &[f64], incy: isize) -> f64 {
    dot(n, 0.0, x, incx, y, incy, |s: f64, u: f64, v: f64| s + u * v)
}

fn complex_dotc(
    n: isize,
    x: &[Complex<f64>],
    incx: isize,
    y: &[Complex<f64>],
    incy: isize,
) -> Complex<f64> {
    let zero = Complex::new(0.0, 0.0);
    dot(n, zero, x, incx, y, incy, |s: Complex<f64>, u: Complex<f64>, v: Complex<f64>| {
        s + u.conj() * v
    })
}

/// Folds one magnitude into a scaled sum of squares `(scale, ssq)`.
fn fold_magnitude(acc: (f64, f64), v: f64) -> (f64, f64) {
    let (scale, ssq) = acc;
    if v == 0.0 {
        return acc;
    }
    let a = v.abs();
    if scale < a {
        (a, 1.0 + ssq * (scale / a) * (scale / a))
    } else {
        (scale, ssq + (a / scale) * (a / scale))
    }
}

fn norm(n: isize, x: &[f64], incx: isize) -> f64 {
    let (scale, ssq) = accumulate(n, (0.0, 1.0), x, incx, fold_magnitude);
    scale * ssq.sqrt()
}

#[test]
fn dot_small_vectors() {
    assert_eq!(real_dot(3, &[1.0, 2.0, 3.0], 1, &[4.0, 5.0, 6.0], 1), 32.0);
}

#[test]
fn dot_negative_stride_reverses() {
    // x read backwards: [3, 2, 1] . [4, 5, 6] = 12 + 10 + 6.
    assert_eq!(real_dot(3, &[1.0, 2.0, 3.0], -1, &[4.0, 5.0, 6.0], 1), 28.0);
}

#[test]
fn dot_negative_count_gives_zero() {
    assert_eq!(real_dot(-1, &[1.0], 1, &[2.0], 1), 0.0);
    assert_eq!(real_dot(0, &[], 1, &[], 1), 0.0);
}

#[test]
fn dot_double_accumulation_with_bias() {
    let x: Vec<f32> = vec![1.0, 2.0, 3.0];
    let y: Vec<f32> = vec![4.0, 5.0, 6.0];
    let sb: f32 = 0.5;
    let s = dot(3, 0.0f64, &x, 1, &y, 1, |s: f64, u: f32, v: f32| s + u as f64 * v as f64);
    assert_eq!((s + sb as f64) as f32, 32.5);
    let none = dot(-1, 0.0f64, &x, 1, &y, 1, |s: f64, u: f32, v: f32| s + u as f64 * v as f64);
    assert_eq!((none + sb as f64) as f32, sb);
}

#[test]
fn dotc_conjugates_first_vector() {
    let x = vec![Complex::new(1.0, 2.0), Complex::new(0.0, -1.0)];
    let y = vec![Complex::new(3.0, -1.0), Complex::new(2.0, 2.0)];
    // (1 - 2i)(3 - i) + (i)(2 + 2i) = (1 - 7i) + (-2 + 2i)
    assert_eq!(complex_dotc(2, &x, 1, &y, 1), Complex::new(-1.0, -5.0));
}

#[test]
fn dotc_hermitian_symmetry() {
    let x = vec![Complex::new(1.5, -2.0), Complex::new(0.25, 4.0), Complex::new(-3.0, 1.0)];
    let y = vec![Complex::new(2.0, 1.0), Complex::new(-1.0, 0.5), Complex::new(0.0, -2.5)];
    let xy = complex_dotc(3, &x, 1, &y, -1);
    let yx = complex_dotc(3, &y, -1, &x, 1);
    assert_eq!(xy, yx.conj());
}

#[test]
fn nrm2_three_four_five() {
    assert!((norm(2, &[3.0, 4.0], 1) - 5.0).abs() < 1e-12);
    assert!((norm(2, &[3.0, 9.0, -4.0], 2) - 5.0).abs() < 1e-12);
}

#[test]
fn nrm2_degenerate_counts_and_strides() {
    assert_eq!(norm(0, &[3.0], 1), 0.0);
    assert_eq!(norm(-1, &[3.0], 1), 0.0);
    assert_eq!(norm(1, &[3.0], 0), 0.0);
    assert_eq!(norm(1, &[-3.0], 1), 3.0);
}

#[test]
fn nrm2_scales_with_input() {
    let x = vec![1.0, -2.0, 0.5, 7.0];
    let k = 1.0e10;
    let kx: Vec<f64> = x.iter().map(|v| k * v).collect();
    let (a, b) = (norm(4, &x, 1), norm(4, &kx, 1));
    assert!((b - k * a).abs() <= 1e-12 * b);
}

#[test]
fn nrm2_wide_magnitudes_stay_finite() {
    let big = norm(2, &[1.0e200, 1.0e200], 1);
    assert!(big.is_finite());
    assert!((big / 1.0e200 - 2.0f64.sqrt()).abs() < 1e-12);
    let small = norm(2, &[3.0e-200, 4.0e-200], 1);
    assert!((small / 1.0e-200 - 5.0).abs() < 1e-12);
    let mixed = norm(2, &[1.0e30, 1.0e-30], 1);
    assert!(mixed.is_finite() && (mixed - 1.0e30).abs() <= 1e-12 * 1.0e30);
}

#[test]
fn storage_len_for_strides() {
    assert_eq!(storage_len(3, 2), Some(5));
    assert_eq!(storage_len(3, -2), Some(5));
    assert_eq!(storage_len(1, 7), Some(1));
    assert_eq!(storage_len(0, 1), Some(0));
    assert_eq!(storage_len(-4, 1), Some(0));
    assert_eq!(storage_len(isize::MAX, isize::MIN), None);
}

#[test]
fn slot_follows_stride_sign() {
    assert_eq!(step_of(-3), 3);
    assert_eq!(step_of(isize::MIN), 1usize << (usize::BITS - 1));
    assert_eq!(slot(7, 3, 3, 0), 0);
    assert_eq!(slot(7, 3, 3, 2), 6);
    assert_eq!(slot(7, 3, -3, 0), 6);
    assert_eq!(slot(7, 3, -3, 2), 0);
}
