use perceptron::{Matrix, NeuralNetwork, Sampler, Scalar};

#[derive(Clone, Copy, Debug, PartialEq)]
struct Real(f32);

impl Scalar for Real {
    fn from_count(n: usize) -> Self {
        Real(n as f32)
    }
    fn plus(self, rhs: Self) -> Self {
        Real(self.0 + rhs.0)
    }
    fn minus(self, rhs: Self) -> Self {
        Real(self.0 - rhs.0)
    }
    fn times(self, rhs: Self) -> Self {
        Real(self.0 * rhs.0)
    }
    fn over(self, rhs: Self) -> Self {
        Real(self.0 / rhs.0)
    }
    fn neg(self) -> Self {
        Real(-self.0)
    }
    fn exp(self) -> Self {
        Real(self.0.exp())
    }
}

/// Hands out 1, 2, 3, ... whatever the bounds.
struct Counting(usize);

impl Sampler<Real> for Counting {
    fn sample(&mut self, _low: Real, _high: Real) -> Real {
        self.0 += 1;
        Real(self.0 as f32)
    }
}

fn matrix(rows: &[&[f32]]) -> Matrix<Real> {
    let data: Vec<Vec<Real>> = rows.iter().map(|r| r.iter().map(|&v| Real(v)).collect()).collect();
    Matrix::from_2d_vec(&data)
}

fn cells(m: &Matrix<Real>) -> Vec<f32> {
    m.data.iter().map(|v| v.0).collect()
}

fn sig(x: f32) -> f32 {
    1.0 / (1.0 + (-x).exp())
}

/// A network of two inputs, two hidden units and one output with weights
/// and biases that are easy to follow by hand.
fn small_network() -> NeuralNetwork<Real> {
    let mut nn = NeuralNetwork::<Real>::new(&[2, 2, 1]);
    nn.set_weight(0, 0, 0, Real(0.5));
    nn.set_weight(0, 0, 1, Real(-1.0));
    nn.set_weight(0, 1, 0, Real(0.25));
    nn.set_weight(0, 1, 1, Real(2.0));
    nn.set_bias(0, 0, Real(0.1));
    nn.set_bias(0, 1, Real(-0.2));
    nn.set_weight(1, 0, 0, Real(1.5));
    nn.set_weight(1, 1, 0, Real(-0.75));
    nn.set_bias(1, 0, Real(0.3));
    nn
}

/// What `small_network` makes of the input `(x0, x1)`, step by step.
fn small_output(x0: f32, x1: f32) -> (f32, f32, f32) {
    let h0 = sig((0.0 + x0 * 0.5) + x1 * 0.25 + 0.1);
    let h1 = sig((0.0 + x0 * -1.0) + x1 * 2.0 + -0.2);
    let out = sig((0.0 + h0 * 1.5) + h1 * -0.75 + 0.3);
    (h0, h1, out)
}

#[test]
fn build_has_the_shapes_of_the_architecture() {
    let arch = [3, 4, 2, 5];
    let nn = NeuralNetwork::<Real>::new(&arch);
    assert_eq!(nn.layers(), 3);
    assert_eq!(nn.activations(0).rows, 1);
    assert_eq!(nn.activations(0).columns, arch[0]);
    for i in 0..3 {
        assert_eq!(nn.weights(i).rows, arch[i]);
        assert_eq!(nn.weights(i).columns, arch[i + 1]);
        assert_eq!(nn.weights(i).data.len(), arch[i] * arch[i + 1]);
        assert_eq!(nn.biases(i).rows, 1);
        assert_eq!(nn.biases(i).columns, arch[i + 1]);
        assert_eq!(nn.activations(i + 1).rows, 1);
        assert_eq!(nn.activations(i + 1).columns, arch[i + 1]);
        assert_eq!(nn.width(i), arch[i]);
    }
    assert_eq!(nn.width(3), 5);
}

#[test]
fn build_of_the_smallest_network() {
    let nn = NeuralNetwork::<Real>::new(&[1, 1]);
    assert_eq!(nn.layers(), 1);
    assert_eq!(nn.weights(0).rows, 1);
    assert_eq!(nn.weights(0).columns, 1);
}

#[test]
fn build_starts_from_zero() {
    let nn = NeuralNetwork::<Real>::new(&[2, 3, 1]);
    for i in 0..2 {
        assert!(nn.weights(i).data.iter().all(|v| v.0 == 0.0));
        assert!(nn.biases(i).data.iter().all(|v| v.0 == 0.0));
    }
    for i in 0..3 {
        assert!(nn.activations(i).data.iter().all(|v| v.0 == 0.0));
    }
}

#[test]
fn parameters_can_be_written_and_read() {
    let nn = small_network();
    assert_eq!(nn.weight(0, 0, 1), Real(-1.0));
    assert_eq!(nn.weight(0, 1, 0), Real(0.25));
    assert_eq!(nn.weight(1, 1, 0), Real(-0.75));
    assert_eq!(nn.bias(0, 1), Real(-0.2));
    assert_eq!(nn.bias(1, 0), Real(0.3));
    assert_eq!(cells(nn.weights(0)), vec![0.5, -1.0, 0.25, 2.0]);
}

#[test]
fn activations_can_be_written_and_read() {
    let mut nn = NeuralNetwork::<Real>::new(&[2, 2, 1]);
    nn.set_activation(1, 1, Real(0.75));
    assert_eq!(nn.activation(1, 1), Real(0.75));
    assert_eq!(nn.activation(1, 0), Real(0.0));
    assert_eq!(cells(nn.activations(1)), vec![0.0, 0.75]);
}

#[test]
fn input_replaces_the_input_row() {
    let mut nn = small_network();
    nn.input(&matrix(&[&[0.25, -4.0]]));
    assert_eq!(cells(nn.activations(0)), vec![0.25, -4.0]);
    assert_eq!(cells(nn.activations(1)), vec![0.0, 0.0]);
    assert_eq!(cells(nn.weights(0)), vec![0.5, -1.0, 0.25, 2.0]);
}

#[test]
fn forward_of_one_neuron() {
    let mut nn = NeuralNetwork::<Real>::new(&[1, 1]);
    nn.set_weight(0, 0, 0, Real(0.5));
    nn.set_bias(0, 0, Real(0.25));
    nn.input(&matrix(&[&[2.0]]));
    nn.forward();
    assert_eq!(nn.output().get(0, 0), Real(sig(1.25)));
}

#[test]
fn forward_through_two_layers() {
    let mut nn = small_network();
    nn.input(&matrix(&[&[1.0, 0.5]]));
    nn.forward();
    let (h0, h1, out) = small_output(1.0, 0.5);
    assert_eq!(cells(nn.activations(0)), vec![1.0, 0.5]);
    assert_eq!(cells(nn.activations(1)), vec![h0, h1]);
    assert_eq!(cells(nn.activations(2)), vec![out]);
    assert_eq!(cells(nn.output()), vec![out]);
}

#[test]
fn forward_leaves_the_parameters() {
    let mut nn = small_network();
    nn.input(&matrix(&[&[1.0, 0.5]]));
    nn.forward();
    assert_eq!(cells(nn.weights(0)), vec![0.5, -1.0, 0.25, 2.0]);
    assert_eq!(cells(nn.biases(0)), vec![0.1, -0.2]);
    assert_eq!(cells(nn.weights(1)), vec![1.5, -0.75]);
    assert_eq!(cells(nn.biases(1)), vec![0.3]);
}

#[test]
fn forward_twice_gives_the_same_output() {
    let mut nn = small_network();
    nn.input(&matrix(&[&[0.3, 0.9]]));
    nn.forward();
    let first: Vec<Vec<f32>> = (0..3).map(|l| cells(nn.activations(l))).collect();
    nn.forward();
    let second: Vec<Vec<f32>> = (0..3).map(|l| cells(nn.activations(l))).collect();
    assert_eq!(first, second);
}

#[test]
fn forward_does_not_depend_on_stale_activations() {
    let mut one = small_network();
    let mut other = small_network();
    other.set_activation(1, 0, Real(123.0));
    other.set_activation(2, 0, Real(-5.0));
    one.input(&matrix(&[&[0.3, 0.9]]));
    other.input(&matrix(&[&[0.3, 0.9]]));
    one.forward();
    other.forward();
    assert_eq!(cells(one.output()), cells(other.output()));
}

#[test]
fn output_is_the_last_activation_row() {
    let mut nn = small_network();
    nn.set_activation(2, 0, Real(0.625));
    assert_eq!(cells(nn.output()), vec![0.625]);
    nn.output().set(0, 0, Real(0.125));
    assert_eq!(nn.activation(2, 0), Real(0.125));
}

#[test]
fn cost_of_the_zero_network_on_xor() {
    let mut nn = NeuralNetwork::<Real>::new(&[2, 2, 1]);
    let truth_in = matrix(&[&[0., 0.], &[1., 0.], &[0., 1.], &[1., 1.]]);
    let truth_out = matrix(&[&[0.], &[1.], &[1.], &[0.]]);
    assert_eq!(nn.cost(&truth_in, &truth_out), Real(0.25));
}

#[test]
fn cost_is_the_mean_squared_error() {
    let mut nn = small_network();
    let truth_in = matrix(&[&[1.0, 0.5], &[0.0, 1.0], &[-1.0, 2.0]]);
    let truth_out = matrix(&[&[1.0], &[0.0], &[0.5]]);
    let mut want = 0.0f32;
    for (x, y) in [((1.0f32, 0.5f32), 1.0f32), ((0.0, 1.0), 0.0), ((-1.0, 2.0), 0.5)] {
        let d = small_output(x.0, x.1).2 - y;
        want += d * d;
    }
    want /= 3.0;
    assert_eq!(nn.cost(&truth_in, &truth_out), Real(want));
}

#[test]
fn cost_adds_up_over_the_columns_of_the_output() {
    let mut nn = NeuralNetwork::<Real>::new(&[1, 2]);
    let truth_in = matrix(&[&[1.0], &[2.0]]);
    let truth_out = matrix(&[&[1.0, 0.0], &[0.5, 0.25]]);
    // every output of the zero network is one half
    let want = ((0.0 + 0.25 + 0.25) + 0.0 + 0.0625) / 2.0;
    assert_eq!(nn.cost(&truth_in, &truth_out), Real(want));
}

#[test]
fn cost_leaves_the_activations_of_the_last_row() {
    let mut nn = small_network();
    let truth_in = matrix(&[&[1.0, 0.5], &[0.0, 1.0]]);
    let truth_out = matrix(&[&[1.0], &[0.0]]);
    nn.cost(&truth_in, &truth_out);
    let (h0, h1, out) = small_output(0.0, 1.0);
    assert_eq!(cells(nn.activations(0)), vec![0.0, 1.0]);
    assert_eq!(cells(nn.activations(1)), vec![h0, h1]);
    assert_eq!(cells(nn.output()), vec![out]);
    assert_eq!(cells(nn.weights(0)), vec![0.5, -1.0, 0.25, 2.0]);
}

#[test]
fn cost_twice_is_the_same() {
    let mut nn = small_network();
    let truth_in = matrix(&[&[1.0, 0.5], &[0.0, 1.0]]);
    let truth_out = matrix(&[&[1.0], &[0.0]]);
    let first = nn.cost(&truth_in, &truth_out);
    let second = nn.cost(&truth_in, &truth_out);
    assert_eq!(first, second);
}

#[test]
fn fill_spares_the_output_row() {
    let mut nn = small_network();
    nn.fill(Real(0.5));
    for i in 0..2 {
        assert!(nn.weights(i).data.iter().all(|v| v.0 == 0.5));
        assert!(nn.biases(i).data.iter().all(|v| v.0 == 0.5));
        assert!(nn.activations(i).data.iter().all(|v| v.0 == 0.5));
    }
    assert_eq!(cells(nn.activations(2)), vec![0.0]);
    assert_eq!(nn.weights(0).rows, 2);
    assert_eq!(nn.weights(0).columns, 2);
}

#[test]
fn rand_draws_layer_by_layer() {
    let mut nn = NeuralNetwork::<Real>::new(&[2, 2, 1]);
    nn.set_activation(1, 0, Real(0.75));
    let mut rng = Counting(0);
    nn.rand(Real(0.0), Real(1.0), &mut rng);
    assert_eq!(cells(nn.weights(0)), vec![1.0, 2.0, 3.0, 4.0]);
    assert_eq!(cells(nn.biases(0)), vec![5.0, 6.0]);
    assert_eq!(cells(nn.weights(1)), vec![7.0, 8.0]);
    assert_eq!(cells(nn.biases(1)), vec![9.0]);
    assert_eq!(cells(nn.activations(1)), vec![0.75, 0.0]);
    assert_eq!(rng.0, 9);
}

#[test]
fn cost_of_an_empty_dataset_is_not_a_number() {
    let mut nn = small_network();
    nn.set_activation(1, 0, Real(0.75));
    let truth_in = Matrix::<Real>::new(0, 2);
    let truth_out = Matrix::<Real>::new(0, 1);
    assert!(nn.cost(&truth_in, &truth_out).0.is_nan());
    // no row, no forward pass
    assert_eq!(cells(nn.activations(1)), vec![0.75, 0.0]);
}

#[test]
fn numbers_that_are_none_run_through_forward_and_cost() {
    let mut nn = small_network();
    nn.set_weight(0, 0, 0, Real(f32::NAN));
    nn.input(&matrix(&[&[1.0, 0.5]]));
    nn.forward();
    assert!(nn.output().get(0, 0).0.is_nan());
    let cost = nn.cost(&matrix(&[&[1.0, 0.5]]), &matrix(&[&[1.0]]));
    assert!(cost.0.is_nan());
}

#[test]
fn weights_without_bound_saturate_the_output() {
    let mut nn = NeuralNetwork::<Real>::new(&[1, 1]);
    nn.set_weight(0, 0, 0, Real(f32::INFINITY));
    nn.input(&matrix(&[&[1.0]]));
    nn.forward();
    assert_eq!(nn.output().get(0, 0), Real(1.0));
    nn.input(&matrix(&[&[-1.0]]));
    nn.forward();
    assert_eq!(nn.output().get(0, 0), Real(0.0));
}
