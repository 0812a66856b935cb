use perceptron::matrix::{mat_dot, mat_sum};
use perceptron::{sigmoid, Matrix, Sampler, Scalar};
use rand::{rngs::StdRng, Rng, SeedableRng};

#[derive(Clone, Copy, Debug, PartialEq)]
struct Real(f32);

impl Scalar for Real {
    fn from_count(n: usize) -> Self {
        Real(n as f32)
    }
    fn plus(self, rhs: Self) -> Self {
        Real(self.0 + rhs.0)
    }
    fn minus(self, rhs: Self) -> Self {
        Real(self.0 - rhs.0)
    }
    fn times(self, rhs: Self) -> Self {
        Real(self.0 * rhs.0)
    }
    fn over(self, rhs: Self) -> Self {
        Real(self.0 / rhs.0)
    }
    fn neg(self) -> Self {
        Real(-self.0)
    }
    fn exp(self) -> Self {
        Real(self.0.exp())
    }
}

struct Seeded(StdRng);

impl Sampler<Real> for Seeded {
    fn sample(&mut self, low: Real, high: Real) -> Real {
        Real(self.0.gen_range(low.0..high.0))
    }
}

/// Hands out 1, 2, 3, ... whatever the bounds.
struct Counting(usize);

impl Sampler<Real> for Counting {
    fn sample(&mut self, _low: Real, _high: Real) -> Real {
        self.0 += 1;
        Real(self.0 as f32)
    }
}

fn matrix(rows: &[&[f32]]) -> Matrix<Real> {
    let data: Vec<Vec<Real>> = rows.iter().map(|r| r.iter().map(|&v| Real(v)).collect()).collect();
    Matrix::from_2d_vec(&data)
}

fn cells(m: &Matrix<Real>) -> Vec<f32> {
    m.data.iter().map(|v| v.0).collect()
}

#[test]
fn new_is_zero_filled() {
    let m = Matrix::<Real>::new(2, 3);
    assert_eq!(m.rows, 2);
    assert_eq!(m.columns, 3);
    assert_eq!(cells(&m), vec![0.0; 6]);
}

#[test]
fn new_may_be_empty() {
    let m = Matrix::<Real>::new(0, 3);
    assert_eq!(m.rows, 0);
    assert_eq!(m.columns, 3);
    assert!(m.data.is_empty());
}

#[test]
fn cells_are_stored_row_by_row() {
    let mut m = Matrix::<Real>::new(2, 3);
    m.set(1, 2, Real(7.0));
    m.set(0, 1, Real(5.0));
    assert_eq!(cells(&m), vec![0.0, 5.0, 0.0, 0.0, 0.0, 7.0]);
    assert_eq!(m.get(1, 2), Real(7.0));
    assert_eq!(m.get(0, 1), Real(5.0));
    assert_eq!(m.get(1, 1), Real(0.0));
}

#[test]
fn from_2d_vec_keeps_rows_and_columns() {
    let m = matrix(&[&[1.0, 2.0, 3.0], &[4.0, 5.0, 6.0]]);
    assert_eq!(m.rows, 2);
    assert_eq!(m.columns, 3);
    assert_eq!(cells(&m), vec![1.0, 2.0, 3.0, 4.0, 5.0, 6.0]);
    assert_eq!(m.get(1, 0), Real(4.0));
}

#[test]
fn from_2d_vec_cuts_longer_rows() {
    let m = matrix(&[&[1.0, 2.0], &[3.0, 4.0, 5.0]]);
    assert_eq!(m.rows, 2);
    assert_eq!(m.columns, 2);
    assert_eq!(cells(&m), vec![1.0, 2.0, 3.0, 4.0]);
}

#[test]
fn fill_sets_every_cell() {
    let mut m = matrix(&[&[1.0, 2.0], &[3.0, 4.0]]);
    m.fill(Real(0.5));
    assert_eq!(m.rows, 2);
    assert_eq!(m.columns, 2);
    assert_eq!(cells(&m), vec![0.5; 4]);
}

#[test]
fn fill_rand_draws_row_by_row() {
    let mut m = Matrix::<Real>::new(2, 2);
    let mut rng = Counting(0);
    m.fill_rand(Real(0.0), Real(1.0), &mut rng);
    assert_eq!(cells(&m), vec![1.0, 2.0, 3.0, 4.0]);
    assert_eq!(rng.0, 4);
}

#[test]
fn fill_rand_stays_within_the_bounds() {
    let mut m = Matrix::<Real>::new(8, 8);
    let mut rng = Seeded(StdRng::seed_from_u64(0xdeadbeef));
    m.fill_rand(Real(-2.0), Real(3.0), &mut rng);
    assert_eq!(m.data.len(), 64);
    assert!(m.data.iter().all(|v| -2.0 <= v.0 && v.0 < 3.0));
    assert!(m.data.iter().any(|v| v.0 != m.data[0].0));
}

#[test]
fn fill_rand_is_repeatable_with_one_seed() {
    let mut one = Matrix::<Real>::new(3, 3);
    let mut other = Matrix::<Real>::new(3, 3);
    one.fill_rand(Real(0.0), Real(1.0), &mut Seeded(StdRng::seed_from_u64(0xdeadbeef)));
    other.fill_rand(Real(0.0), Real(1.0), &mut Seeded(StdRng::seed_from_u64(0xdeadbeef)));
    assert_eq!(cells(&one), cells(&other));
}

#[test]
fn add_is_cell_by_cell() {
    let mut a = matrix(&[&[1.0, 2.0], &[3.0, 4.0]]);
    let b = matrix(&[&[0.5, 0.25], &[-3.0, 10.0]]);
    a.add(&b);
    assert_eq!(cells(&a), vec![1.5, 2.25, 0.0, 14.0]);
    assert_eq!(cells(&b), vec![0.5, 0.25, -3.0, 10.0]);
}

#[test]
fn add_commutes() {
    let a = matrix(&[&[0.1, 0.2, 0.3], &[1e8, -7.5, 3.25]]);
    let b = matrix(&[&[0.7, 1e-3, 5.0], &[1.0, 2.5, -3.25]]);
    let mut ab = a.clone();
    ab.add(&b);
    let mut ba = b.clone();
    ba.add(&a);
    assert_eq!(cells(&ab), cells(&ba));
}

#[test]
fn add_associates() {
    let a = matrix(&[&[1.0, 2.0], &[0.5, -4.0]]);
    let b = matrix(&[&[8.0, 0.25], &[1.5, 16.0]]);
    let c = matrix(&[&[-3.0, 0.125], &[2.0, 32.0]]);
    let mut left = a.clone();
    left.add(&b);
    left.add(&c);
    let mut bc = b.clone();
    bc.add(&c);
    let mut right = a.clone();
    right.add(&bc);
    assert_eq!(cells(&left), cells(&right));
    assert_eq!(cells(&left), vec![6.0, 2.375, 4.0, 44.0]);
}

#[test]
fn sub_is_cell_by_cell() {
    let mut a = matrix(&[&[1.0, 2.0], &[3.0, 4.0]]);
    let b = matrix(&[&[0.5, 0.25], &[-3.0, 10.0]]);
    a.sub(&b);
    assert_eq!(cells(&a), vec![0.5, 1.75, 6.0, -6.0]);
}

#[test]
fn dotf_scales_every_cell() {
    let mut a = matrix(&[&[1.0, -2.0], &[0.5, 4.0]]);
    a.dotf(Real(3.0));
    assert_eq!(cells(&a), vec![3.0, -6.0, 1.5, 12.0]);
}

#[test]
fn scale_by_one_is_identity() {
    let mut a = matrix(&[&[0.1, -2.7], &[1e-20, 4e20]]);
    let before = cells(&a);
    a.dotf(Real(1.0));
    assert_eq!(cells(&a), before);
}

#[test]
fn sigmoid_of_a_number() {
    assert_eq!(sigmoid(Real(0.0)), Real(0.5));
    assert_eq!(sigmoid(Real(2.0)), Real(1.0 / (1.0 + (-2.0f32).exp())));
    assert!(sigmoid(Real(20.0)).0 > 0.999);
    assert!(sigmoid(Real(-20.0)).0 < 0.001);
}

#[test]
fn sigmoid_squashes_every_cell() {
    let mut a = matrix(&[&[0.0, 1.0], &[-1.0, 3.0]]);
    a.sigmoid();
    let want: Vec<f32> =
        [0.0f32, 1.0, -1.0, 3.0].iter().map(|x| 1.0 / (1.0 + (-x).exp())).collect();
    assert_eq!(cells(&a), want);
    assert_eq!(a.rows, 2);
    assert_eq!(a.columns, 2);
}

#[test]
fn row_is_a_copy() {
    let m = matrix(&[&[1.0, 2.0, 3.0], &[4.0, 5.0, 6.0]]);
    let mut r = m.row(1);
    assert_eq!(r.rows, 1);
    assert_eq!(r.columns, 3);
    assert_eq!(cells(&r), vec![4.0, 5.0, 6.0]);
    r.set(0, 0, Real(9.0));
    assert_eq!(m.get(1, 0), Real(4.0));
}

#[test]
fn dot_is_the_matrix_product() {
    let mut a = matrix(&[&[1.0, 2.0], &[3.0, 4.0]]);
    let b = matrix(&[&[5.0, 6.0], &[7.0, 8.0]]);
    a.dot(&b);
    assert_eq!(cells(&a), vec![19.0, 22.0, 43.0, 50.0]);
}

#[test]
fn dot_takes_the_shape_of_the_product() {
    let mut a = matrix(&[&[1.0, 2.0, 3.0], &[4.0, 5.0, 6.0]]);
    let b = matrix(&[&[1.0], &[0.5], &[-1.0]]);
    a.dot(&b);
    assert_eq!(a.rows, 2);
    assert_eq!(a.columns, 1);
    assert_eq!(cells(&a), vec![-1.0, 0.5]);
}

#[test]
fn dot_associates_within_tolerance() {
    let a = matrix(&[&[0.1, 0.7, -0.3], &[1.3, 0.2, 0.9]]);
    let b = matrix(&[&[0.6, -1.1], &[0.4, 0.8], &[2.1, 0.05]]);
    let c = matrix(&[&[0.3, 0.9, -0.2, 1.7], &[-0.6, 0.1, 0.45, 0.33]]);
    let mut left = a.clone();
    left.dot(&b);
    left.dot(&c);
    let mut bc = b.clone();
    bc.dot(&c);
    let mut right = a.clone();
    right.dot(&bc);
    assert_eq!(left.rows, 2);
    assert_eq!(left.columns, 4);
    assert_eq!(right.rows, 2);
    assert_eq!(right.columns, 4);
    for (l, r) in cells(&left).iter().zip(cells(&right).iter()) {
        assert!((l - r).abs() < 1e-5);
    }
}

#[test]
fn clone_is_equal_and_apart() {
    let m = matrix(&[&[1.0, 2.0], &[3.0, 4.0]]);
    let mut c = m.clone();
    assert_eq!(c.rows, 2);
    assert_eq!(c.columns, 2);
    assert_eq!(cells(&c), cells(&m));
    c.fill(Real(0.0));
    assert_eq!(cells(&m), vec![1.0, 2.0, 3.0, 4.0]);
}

#[test]
fn mat_dot_writes_the_product() {
    let a = matrix(&[&[1.0, 2.0], &[3.0, 4.0]]);
    let b = matrix(&[&[5.0, 6.0], &[7.0, 8.0]]);
    let mut dst = matrix(&[&[9.0, 9.0], &[9.0, 9.0]]);
    mat_dot(&mut dst, &a, &b);
    assert_eq!(cells(&dst), vec![19.0, 22.0, 43.0, 50.0]);
    assert_eq!(cells(&a), vec![1.0, 2.0, 3.0, 4.0]);
}

#[test]
fn mat_sum_writes_the_sum() {
    let a = matrix(&[&[1.0, 2.0], &[3.0, 4.0]]);
    let b = matrix(&[&[0.5, 0.25], &[-3.0, 10.0]]);
    let mut dst = Matrix::<Real>::new(2, 2);
    mat_sum(&mut dst, &a, &b);
    assert_eq!(cells(&dst), vec![1.5, 2.25, 0.0, 14.0]);
    assert_eq!(cells(&a), vec![1.0, 2.0, 3.0, 4.0]);
}

#[test]
fn fill_from_takes_the_numbers_row_by_row() {
    let mut m = Matrix::<Real>::new(2, 2);
    m.fill_from(&vec![Real(1.0), Real(2.0), Real(3.0), Real(4.0)]);
    assert_eq!(m.rows, 2);
    assert_eq!(m.columns, 2);
    assert_eq!(m.get(0, 1), Real(2.0));
    assert_eq!(m.get(1, 0), Real(3.0));
    assert_eq!(cells(&m), vec![1.0, 2.0, 3.0, 4.0]);
}
