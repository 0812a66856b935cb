use perceptron::linear::{cost, dcost, finite_diff, learn};
use perceptron::{Matrix, Scalar};

#[derive(Clone, Copy, Debug, PartialEq)]
struct Real(f32);

impl Scalar for Real {
    fn from_count(n: usize) -> Self {
        Real(n as f32)
    }
    fn plus(self, rhs: Self) -> Self {
        Real(self.0 + rhs.0)
    }
    fn minus(self, rhs: Self) -> Self {
        Real(self.0 - rhs.0)
    }
    fn times(self, rhs: Self) -> Self {
        Real(self.0 * rhs.0)
    }
    fn over(self, rhs: Self) -> Self {
        Real(self.0 / rhs.0)
    }
    fn neg(self) -> Self {
        Real(-self.0)
    }
    fn exp(self) -> Self {
        Real(self.0.exp())
    }
}

const LINE_DATA: [[f32; 2]; 5] = [[0.0, 0.0], [1.0, 2.0], [2.0, 4.0], [3.0, 6.0], [4.0, 8.0]];

fn line_data() -> Matrix<Real> {
    let data: Vec<Vec<Real>> =
        LINE_DATA.iter().map(|r| r.iter().map(|&v| Real(v)).collect()).collect();
    Matrix::from_2d_vec(&data)
}

#[test]
fn cost_of_the_right_slope_is_zero() {
    assert_eq!(cost(&line_data(), Real(2.0)), Real(0.0));
}

#[test]
fn cost_is_the_mean_squared_error_of_the_line() {
    // the errors at slope 3 are 0, 1, 2, 3, 4
    assert_eq!(cost(&line_data(), Real(3.0)), Real((0.0 + 1.0 + 4.0 + 9.0 + 16.0) / 5.0));
    assert_eq!(cost(&line_data(), Real(0.0)), Real((0.0 + 4.0 + 16.0 + 36.0 + 64.0) / 5.0));
}

#[test]
fn dcost_is_the_derivative_of_the_cost() {
    // 2 * (x * w - y) * x at slope 3: 0, 2, 8, 18, 32
    assert_eq!(dcost(&line_data(), Real(3.0)), Real((0.0 + 2.0 + 8.0 + 18.0 + 32.0) / 5.0));
    assert_eq!(dcost(&line_data(), Real(2.0)), Real(0.0));
    assert_eq!(dcost(&line_data(), Real(1.0)), Real(-12.0));
}

#[test]
fn finite_diff_is_the_quotient_of_differences() {
    let data = line_data();
    let (w, step) = (3.0f32, 0.5f32);
    let want = (cost(&data, Real(w + step)).0 - cost(&data, Real(w)).0) / step;
    assert_eq!(finite_diff(&data, Real(w), Real(step)), Real(want));
    // the cost is 6 * (w - 2)^2: (6 * 2.25 - 6) / 0.5
    assert_eq!(finite_diff(&data, Real(w), Real(step)), Real(15.0));
}

#[test]
fn finite_diff_comes_close_to_the_derivative() {
    let data = line_data();
    let slope = finite_diff(&data, Real(3.0), Real(1e-2)).0;
    let exact = dcost(&data, Real(3.0)).0;
    assert!((slope - exact).abs() < 0.1);
}

#[test]
fn learn_steps_against_the_derivative() {
    assert_eq!(learn(Real(3.0), Real(12.0), Real(0.125)), Real(1.5));
    assert_eq!(learn(Real(3.0), Real(-4.0), Real(1.0)), Real(7.0));
}

#[test]
fn the_line_is_found() {
    let data = line_data();
    let mut w = Real(7.0);
    let before = cost(&data, w).0;
    for _ in 0..1000 {
        let dw = dcost(&data, w);
        w = learn(w, dw, Real(1e-2));
    }
    assert!(cost(&data, w).0 < before);
    assert!((w.0 - 2.0).abs() < 1e-3);
}

#[test]
fn the_line_is_found_by_finite_differences() {
    let data = line_data();
    let mut w = Real(7.0);
    for _ in 0..1000 {
        let dw = finite_diff(&data, w, Real(1e-2));
        w = learn(w, dw, Real(1e-2));
    }
    assert!((w.0 - 2.0).abs() < 1e-1);
}

#[test]
fn cost_of_an_empty_table_is_not_a_number() {
    let data = Matrix::<Real>::new(0, 2);
    assert!(cost(&data, Real(1.0)).0.is_nan());
}
