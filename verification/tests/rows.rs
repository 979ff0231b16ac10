use ctc_forced_aligner_rs::kernels::Number;
use ctc_forced_aligner_rs::rows::{
    attend_head, log_softmax_row, log_softmax_rows_inplace, log_softmax_rows_into, mean_row,
    normalize_rows, softmax_row, weight_norm, Real,
};

/// A single-precision number.
#[derive(Debug, Clone, Copy, PartialEq)]
struct F32(f32);

impl Number for F32 {
    fn zero_of() -> Self {
        F32(0.0)
    }

    fn plus_of(self, rhs: Self) -> Self {
        F32(self.0 + rhs.0)
    }

    fn times_of(self, rhs: Self) -> Self {
        F32(self.0 * rhs.0)
    }

    fn zero() -> Self {
        F32(0.0)
    }

    fn plus(self, rhs: Self) -> Self {
        F32(self.0 + rhs.0)
    }

    fn times(self, rhs: Self) -> Self {
        F32(self.0 * rhs.0)
    }
}

impl Real for F32 {
    fn minus_of(self, rhs: Self) -> Self {
        F32(self.0 - rhs.0)
    }

    fn over_of(self, rhs: Self) -> Self {
        F32(self.0 / rhs.0)
    }

    fn recip_of(self) -> Self {
        F32(self.0.recip())
    }

    fn root_of(self) -> Self {
        F32(self.0.sqrt())
    }

    fn exp_of(self) -> Self {
        F32(self.0.exp())
    }

    fn ln_of(self) -> Self {
        F32(self.0.ln())
    }

    fn greater_of(self, rhs: Self) -> Self {
        F32(self.0.max(rhs.0))
    }

    fn least_of() -> Self {
        F32(f32::NEG_INFINITY)
    }

    fn count_of(n: usize) -> Self {
        F32(n as f32)
    }

    fn minus(self, rhs: Self) -> Self {
        F32(self.0 - rhs.0)
    }

    fn over(self, rhs: Self) -> Self {
        F32(self.0 / rhs.0)
    }

    fn recip(self) -> Self {
        F32(self.0.recip())
    }

    fn root(self) -> Self {
        F32(self.0.sqrt())
    }

    fn exponential(self) -> Self {
        F32(self.0.exp())
    }

    fn logarithm(self) -> Self {
        F32(self.0.ln())
    }

    fn greater(self, rhs: Self) -> Self {
        F32(self.0.max(rhs.0))
    }

    fn least() -> Self {
        F32(f32::NEG_INFINITY)
    }

    fn count(n: usize) -> Self {
        F32(n as f32)
    }
}

fn floats(list: &[f32]) -> Vec<F32> {
    list.iter().map(|v| F32(*v)).collect()
}

fn close(a: &[F32], b: &[f32]) -> bool {
    a.len() == b.len() && a.iter().zip(b).all(|(x, y)| (x.0 - y).abs() < 1e-4)
}

#[test]
fn log_softmax_sums_to_one() {
    let t = 2;
    let c = 3;
    let mut x = floats(&[1.0f32, 2.0, 3.0, 0.0, 0.0, 0.0]);
    log_softmax_rows_inplace(&mut x, t, c);
    for row in 0..t {
        let sum: f32 = x[row * c..(row + 1) * c].iter().map(|v| v.0.exp()).sum();
        assert!((sum - 1.0).abs() < 1e-5, "row {row} sum={sum}");
    }
}

#[test]
fn log_softmax_into_another_matrix() {
    let src = floats(&[0.0, 0.0, 5.0, 5.0]);
    let mut dst = floats(&[9.0; 4]);
    log_softmax_rows_into(&src, 2, 2, &mut dst);
    let half = 0.5f32.ln();
    assert!(close(&dst, &[half; 4]));
    assert!(close(&log_softmax_row(&src[..2]), &[half, half]));
}

#[test]
fn softmax_by_hand() {
    let e = 1f32.exp();
    assert!(close(
        &softmax_row(&floats(&[1.0, 0.0])),
        &[e / (e + 1.0), 1.0 / (e + 1.0)]
    ));
    assert_eq!(softmax_row::<i64>(&[3, 7, 5]), vec![0, 1, 0]);
    assert_eq!(log_softmax_row::<i64>(&[3, 7, 7]), vec![-5, -1, -1]);
    assert_eq!(softmax_row::<i64>(&[]), Vec::<i64>::new());
}

#[test]
fn normalisation_by_hand() {
    let x = floats(&[1.0, 3.0, 10.0, 10.0]);
    let w = floats(&[2.0, 1.0]);
    let b = floats(&[0.5, 0.0]);
    let y = normalize_rows(&x, 2, &w, &b, F32(0.0001));
    let inv = 1.0 / 1.0001f32.sqrt();
    assert!(close(&y, &[-2.0 * inv + 0.5, inv, 0.5, 0.0]));
}

#[test]
fn means_are_rounded_down() {
    assert_eq!(mean_row::<i64>(&[1, 2, 4]), 2);
    assert_eq!(mean_row::<i64>(&[-1, -2]), -2);
    assert_eq!(mean_row::<i64>(&[]), 0);
}

#[test]
fn integers_as_real_numbers() {
    assert_eq!(7i64.over(2), 3);
    assert_eq!((-7i64).over(2), -4);
    assert_eq!(7i64.over(0), 0);
    assert_eq!(i64::MIN.over(1), i64::MIN);
    assert_eq!(24i64.root(), 4);
    assert_eq!(25i64.root(), 5);
    assert_eq!((-4i64).root(), 0);
    assert_eq!(10i64.exponential(), 1024);
    assert_eq!(62i64.exponential(), 1 << 62);
    assert_eq!(63i64.exponential(), i64::MAX);
    assert_eq!((-1i64).exponential(), 0);
    assert_eq!(1023i64.logarithm(), 9);
    assert_eq!(1024i64.logarithm(), 10);
    assert_eq!(0i64.logarithm(), 0);
    assert_eq!(1i64.recip(), 1);
    assert_eq!(5i64.recip(), 0);
    assert_eq!(3i64.greater(4), 4);
    assert_eq!(5i64.minus(8), -3);
    assert_eq!(<i64 as Real>::count(12), 12);
    assert_eq!(<i64 as Real>::least(), i64::MIN);
}

#[test]
fn one_head_of_attention() {
    // Two frames of four features, two heads.  Equal scores average the
    // values; a much greater one picks its frame.
    let q = floats(&[0.0, 0.0, 100.0, 0.0, 0.0, 0.0, 0.0, 100.0]);
    let k = floats(&[1.0, 1.0, 1.0, 0.0, 1.0, 1.0, 0.0, 1.0]);
    let v = floats(&[1.0, 2.0, 3.0, 4.0, 5.0, 6.0, 7.0, 8.0]);
    let first = attend_head(&q, &k, &v, 2, 4, 0, 2, F32(1.0));
    assert!(close(&first, &[3.0, 4.0, 3.0, 4.0]));
    let second = attend_head(&q, &k, &v, 2, 4, 1, 2, F32(1.0));
    assert!(close(&second, &[3.0, 4.0, 7.0, 8.0]));
}

#[test]
fn gains_over_norms() {
    // Two directions of two taps.
    let directions = floats(&[3.0, 1.0, 4.0, 0.0]);
    let w = weight_norm(&directions, &floats(&[10.0, 2.0]), 2, 2);
    assert!(close(&w, &[6.0, 2.0, 8.0, 0.0]));
    let w = weight_norm(&directions, &floats(&[5.0]), 2, 2);
    assert!(close(&w, &[3.0, 5.0, 4.0, 0.0]));
}
