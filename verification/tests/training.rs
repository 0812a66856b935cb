use perceptron::{Estimator, Matrix, NeuralNetwork, Sampler, Scalar};
use rand::{rngs::StdRng, Rng, SeedableRng};

#[derive(Clone, Copy, Debug, PartialEq)]
struct Real(f32);

impl Scalar for Real {
    fn from_count(n: usize) -> Self {
        Real(n as f32)
    }
    fn plus(self, rhs: Self) -> Self {
        Real(self.0 + rhs.0)
    }
    fn minus(self, rhs: Self) -> Self {
        Real(self.0 - rhs.0)
    }
    fn times(self, rhs: Self) -> Self {
        Real(self.0 * rhs.0)
    }
    fn over(self, rhs: Self) -> Self {
        Real(self.0 / rhs.0)
    }
    fn neg(self) -> Self {
        Real(-self.0)
    }
    fn exp(self) -> Self {
        Real(self.0.exp())
    }
}

struct Seeded(StdRng);

impl Sampler<Real> for Seeded {
    fn sample(&mut self, low: Real, high: Real) -> Real {
        Real(self.0.gen_range(low.0..high.0))
    }
}

const STEP: f32 = 1e-1;
const LEARN_RATE: f32 = 1.0;
const EPOCHS: usize = 20_000;

fn matrix(rows: &[&[f32]]) -> Matrix<Real> {
    let data: Vec<Vec<Real>> = rows.iter().map(|r| r.iter().map(|&v| Real(v)).collect()).collect();
    Matrix::from_2d_vec(&data)
}

fn cells(m: &Matrix<Real>) -> Vec<f32> {
    m.data.iter().map(|v| v.0).collect()
}

fn bits(m: &Matrix<Real>) -> Vec<u32> {
    m.data.iter().map(|v| v.0.to_bits()).collect()
}

fn sig(x: f32) -> f32 {
    1.0 / (1.0 + (-x).exp())
}

fn gate(table: &[[f32; 3]; 4]) -> (Matrix<Real>, Matrix<Real>) {
    let inputs: Vec<Vec<Real>> = table.iter().map(|r| vec![Real(r[0]), Real(r[1])]).collect();
    let targets: Vec<Vec<Real>> = table.iter().map(|r| vec![Real(r[2])]).collect();
    (Matrix::from_2d_vec(&inputs), Matrix::from_2d_vec(&targets))
}

const OR_GATE: [[f32; 3]; 4] = [[0., 0., 0.], [1., 0., 1.], [0., 1., 1.], [1., 1., 1.]];
const AND_GATE: [[f32; 3]; 4] = [[0., 0., 0.], [1., 0., 0.], [0., 1., 0.], [1., 1., 1.]];
const XOR_GATE: [[f32; 3]; 4] = [[0., 0., 0.], [1., 0., 1.], [0., 1., 1.], [1., 1., 0.]];

fn seeded(arch: &[usize]) -> NeuralNetwork<Real> {
    let mut nn = NeuralNetwork::<Real>::new(arch);
    nn.rand(Real(0.0), Real(1.0), &mut Seeded(StdRng::seed_from_u64(0xdeadbeef)));
    nn
}

fn answer(nn: &mut NeuralNetwork<Real>, x0: f32, x1: f32) -> f32 {
    nn.input(&matrix(&[&[x0, x1]]));
    nn.forward();
    nn.output().get(0, 0).0
}

#[test]
fn finite_diff_puts_every_parameter_back() {
    let (truth_in, truth_out) = gate(&XOR_GATE);
    let mut nn = seeded(&[2, 2, 1]);
    let mut grad = NeuralNetwork::<Real>::new(&[2, 2, 1]);
    let before: Vec<Vec<u32>> = (0..2).map(|i| bits(nn.weights(i))).collect();
    let before_b: Vec<Vec<u32>> = (0..2).map(|i| bits(nn.biases(i))).collect();
    nn.finite_diff(&mut grad, &truth_in, &truth_out, Real(STEP));
    let after: Vec<Vec<u32>> = (0..2).map(|i| bits(nn.weights(i))).collect();
    let after_b: Vec<Vec<u32>> = (0..2).map(|i| bits(nn.biases(i))).collect();
    assert_eq!(before, after);
    assert_eq!(before_b, after_b);
}

#[test]
fn finite_diff_of_one_neuron() {
    // one input, one output, one sample: cost(w, b) = (sig(x * w + b) - y)^2
    let (x, y, w, b) = (2.0f32, 1.0f32, 0.5f32, 0.25f32);
    let cost = |w: f32, b: f32| {
        let d = sig((0.0 + x * w) + b) - y;
        (0.0 + d * d) / 1.0
    };
    let mut nn = NeuralNetwork::<Real>::new(&[1, 1]);
    nn.set_weight(0, 0, 0, Real(w));
    nn.set_bias(0, 0, Real(b));
    let mut grad = NeuralNetwork::<Real>::new(&[1, 1]);
    nn.finite_diff(&mut grad, &matrix(&[&[x]]), &matrix(&[&[y]]), Real(STEP));
    assert_eq!(grad.weight(0, 0, 0), Real((cost(w + STEP, b) - cost(w, b)) / STEP));
    assert_eq!(grad.bias(0, 0), Real((cost(w, b + STEP) - cost(w, b)) / STEP));
    assert_eq!(nn.weight(0, 0, 0), Real(w));
    assert_eq!(nn.bias(0, 0), Real(b));
}

#[test]
fn finite_diff_leaves_the_signals_of_the_gradient() {
    let (truth_in, truth_out) = gate(&XOR_GATE);
    let mut nn = seeded(&[2, 2, 1]);
    let mut grad = NeuralNetwork::<Real>::new(&[2, 2, 1]);
    grad.set_activation(1, 1, Real(0.75));
    nn.finite_diff(&mut grad, &truth_in, &truth_out, Real(STEP));
    assert_eq!(cells(grad.activations(1)), vec![0.0, 0.75]);
}

#[test]
fn backprop_of_one_neuron() {
    let (x, y, w, b) = (2.0f32, 1.0f32, 0.5f32, 0.25f32);
    let a = sig((0.0 + x * w) + b);
    let unit = 2.0 * (a - y) * a * (1.0 - a);
    let mut nn = NeuralNetwork::<Real>::new(&[1, 1]);
    nn.set_weight(0, 0, 0, Real(w));
    nn.set_bias(0, 0, Real(b));
    let mut grad = NeuralNetwork::<Real>::new(&[1, 1]);
    grad.set_weight(0, 0, 0, Real(99.0));
    grad.set_bias(0, 0, Real(-99.0));
    nn.backprop(&mut grad, &matrix(&[&[x]]), &matrix(&[&[y]]));
    assert_eq!(grad.bias(0, 0), Real((0.0 + unit) / 1.0));
    assert_eq!(grad.weight(0, 0, 0), Real((0.0 + unit * x) / 1.0));
    // the error signals: at the output the output less the target, before
    // it what flows back along the weight
    assert_eq!(grad.activation(1, 0), Real(a - y));
    assert_eq!(grad.activation(0, 0), Real(0.0 + unit * w));
    assert_eq!(nn.weight(0, 0, 0), Real(w));
    assert_eq!(nn.bias(0, 0), Real(b));
    assert_eq!(nn.activation(1, 0), Real(a));
}

#[test]
fn backprop_takes_the_mean_over_the_samples() {
    let (w, b) = (0.5f32, 0.25f32);
    let samples = [(2.0f32, 1.0f32), (-1.0, 0.0), (0.5, 0.5)];
    let mut nn = NeuralNetwork::<Real>::new(&[1, 1]);
    nn.set_weight(0, 0, 0, Real(w));
    nn.set_bias(0, 0, Real(b));
    let mut grad = NeuralNetwork::<Real>::new(&[1, 1]);
    nn.backprop(
        &mut grad,
        &matrix(&[&[2.0], &[-1.0], &[0.5]]),
        &matrix(&[&[1.0], &[0.0], &[0.5]]),
    );
    let mut gw = 0.0f32;
    let mut gb = 0.0f32;
    for (x, y) in samples {
        let a = sig((0.0 + x * w) + b);
        let unit = 2.0 * (a - y) * a * (1.0 - a);
        gb += unit;
        gw += unit * x;
    }
    assert_eq!(grad.bias(0, 0), Real(gb / 3.0));
    assert_eq!(grad.weight(0, 0, 0), Real(gw / 3.0));
}

fn seeded_with(seed: u64) -> NeuralNetwork<Real> {
    let mut nn = NeuralNetwork::<Real>::new(&[2, 2, 1]);
    nn.rand(Real(0.0), Real(1.0), &mut Seeded(StdRng::seed_from_u64(seed)));
    nn
}

#[test]
fn backprop_and_finite_diff_agree() {
    let (truth_in, truth_out) = gate(&XOR_GATE);
    for step in [1e-1f32, 1e-2] {
        let mut nn = seeded_with(31);
        let mut exact = NeuralNetwork::<Real>::new(&[2, 2, 1]);
        let mut slopes = NeuralNetwork::<Real>::new(&[2, 2, 1]);
        nn.backprop(&mut exact, &truth_in, &truth_out);
        nn.finite_diff(&mut slopes, &truth_in, &truth_out, Real(step));
        for i in 0..2 {
            for (e, s) in cells(exact.weights(i)).iter().zip(cells(slopes.weights(i)).iter()) {
                assert!((e - s).abs() < 1e-2, "weight of layer {}: {} against {}", i, e, s);
            }
            for (e, s) in cells(exact.biases(i)).iter().zip(cells(slopes.biases(i)).iter()) {
                assert!((e - s).abs() < 1e-2, "bias of layer {}: {} against {}", i, e, s);
            }
        }
    }
}

#[test]
fn backprop_agrees_with_the_slopes_at_the_output_layer() {
    let (truth_in, truth_out) = gate(&XOR_GATE);
    for seed in [0xdeadbeef, 1, 2, 3, 28] {
        let mut nn = seeded_with(seed);
        let mut exact = NeuralNetwork::<Real>::new(&[2, 2, 1]);
        let mut slopes = NeuralNetwork::<Real>::new(&[2, 2, 1]);
        nn.backprop(&mut exact, &truth_in, &truth_out);
        nn.finite_diff(&mut slopes, &truth_in, &truth_out, Real(1e-2));
        for (e, s) in cells(exact.weights(1)).iter().zip(cells(slopes.weights(1)).iter()) {
            assert!((e - s).abs() < 1e-2, "weight: {} against {}", e, s);
        }
        for (e, s) in cells(exact.biases(1)).iter().zip(cells(slopes.biases(1)).iter()) {
            assert!((e - s).abs() < 1e-2, "bias: {} against {}", e, s);
        }
    }
}

#[test]
fn backprop_doubles_the_signal_at_each_layer_it_passes() {
    // every unit multiplies its error signal by two, so one layer below
    // the output the gradient is twice the slope of the cost
    let (truth_in, truth_out) = gate(&XOR_GATE);
    for seed in [0xdeadbeef, 1, 2, 3, 28] {
        let mut nn = seeded_with(seed);
        let mut exact = NeuralNetwork::<Real>::new(&[2, 2, 1]);
        let mut slopes = NeuralNetwork::<Real>::new(&[2, 2, 1]);
        nn.backprop(&mut exact, &truth_in, &truth_out);
        nn.finite_diff(&mut slopes, &truth_in, &truth_out, Real(1e-2));
        for (e, s) in cells(exact.weights(0)).iter().zip(cells(slopes.weights(0)).iter()) {
            assert!((e - 2.0 * s).abs() < 1e-2, "weight: {} against twice {}", e, s);
        }
        for (e, s) in cells(exact.biases(0)).iter().zip(cells(slopes.biases(0)).iter()) {
            assert!((e - 2.0 * s).abs() < 1e-2, "bias: {} against twice {}", e, s);
        }
    }
}

#[test]
fn backprop_through_a_hidden_layer() {
    // one input, one hidden unit, one output, one sample
    let (x, y) = (0.5f32, 1.0f32);
    let (w0, b0, w1, b1) = (0.25f32, -0.5f32, 2.0f32, 0.125f32);
    let h = sig((0.0 + x * w0) + b0);
    let out = sig((0.0 + h * w1) + b1);
    let unit1 = 2.0 * (out - y) * out * (1.0 - out);
    let back = 0.0 + unit1 * w1;
    let unit0 = 2.0 * back * h * (1.0 - h);
    let mut nn = NeuralNetwork::<Real>::new(&[1, 1, 1]);
    nn.set_weight(0, 0, 0, Real(w0));
    nn.set_bias(0, 0, Real(b0));
    nn.set_weight(1, 0, 0, Real(w1));
    nn.set_bias(1, 0, Real(b1));
    let mut grad = NeuralNetwork::<Real>::new(&[1, 1, 1]);
    nn.backprop(&mut grad, &matrix(&[&[x]]), &matrix(&[&[y]]));
    assert_eq!(grad.bias(1, 0), Real((0.0 + unit1) / 1.0));
    assert_eq!(grad.weight(1, 0, 0), Real((0.0 + unit1 * h) / 1.0));
    assert_eq!(grad.bias(0, 0), Real((0.0 + unit0) / 1.0));
    assert_eq!(grad.weight(0, 0, 0), Real((0.0 + unit0 * x) / 1.0));
    assert_eq!(grad.activation(2, 0), Real(out - y));
    assert_eq!(grad.activation(1, 0), Real(back));
    assert_eq!(grad.activation(0, 0), Real(0.0 + unit0 * w0));
}

#[test]
fn learn_steps_against_the_gradient() {
    let mut nn = NeuralNetwork::<Real>::new(&[1, 2]);
    nn.set_weight(0, 0, 0, Real(1.0));
    nn.set_weight(0, 0, 1, Real(-2.0));
    nn.set_bias(0, 0, Real(0.5));
    nn.set_bias(0, 1, Real(0.25));
    let mut grad = NeuralNetwork::<Real>::new(&[1, 2]);
    grad.set_weight(0, 0, 0, Real(4.0));
    grad.set_weight(0, 0, 1, Real(-8.0));
    grad.set_bias(0, 0, Real(2.0));
    grad.set_bias(0, 1, Real(1.0));
    nn.learn(&mut grad, Real(0.5));
    assert_eq!(cells(nn.weights(0)), vec![-1.0, 2.0]);
    assert_eq!(cells(nn.biases(0)), vec![-0.5, -0.25]);
    // the gradient is left scaled by the rate
    assert_eq!(cells(grad.weights(0)), vec![2.0, -4.0]);
    assert_eq!(cells(grad.biases(0)), vec![1.0, 0.5]);
}

#[test]
fn train_is_estimate_and_learn_epoch_by_epoch() {
    let (truth_in, truth_out) = gate(&XOR_GATE);
    for how in [Estimator::FiniteDiff { step: Real(STEP) }, Estimator::Backprop] {
        let mut by_hand = seeded(&[2, 2, 1]);
        let mut grad = NeuralNetwork::<Real>::new(&[2, 2, 1]);
        for _ in 0..25 {
            match how {
                Estimator::FiniteDiff { step } => {
                    by_hand.finite_diff(&mut grad, &truth_in, &truth_out, step)
                }
                Estimator::Backprop => by_hand.backprop(&mut grad, &truth_in, &truth_out),
            }
            by_hand.learn(&mut grad, Real(LEARN_RATE));
        }
        let mut trained = seeded(&[2, 2, 1]);
        let mut grad = NeuralNetwork::<Real>::new(&[2, 2, 1]);
        trained.train(&mut grad, &truth_in, &truth_out, 25, Real(LEARN_RATE), &how);
        for i in 0..2 {
            assert_eq!(bits(trained.weights(i)), bits(by_hand.weights(i)));
            assert_eq!(bits(trained.biases(i)), bits(by_hand.biases(i)));
        }
    }
}

#[test]
fn train_for_no_epoch_changes_nothing() {
    let (truth_in, truth_out) = gate(&XOR_GATE);
    let mut nn = seeded(&[2, 2, 1]);
    let before: Vec<Vec<u32>> = (0..2).map(|i| bits(nn.weights(i))).collect();
    let mut grad = NeuralNetwork::<Real>::new(&[2, 2, 1]);
    nn.train(&mut grad, &truth_in, &truth_out, 0, Real(LEARN_RATE), &Estimator::Backprop);
    let after: Vec<Vec<u32>> = (0..2).map(|i| bits(nn.weights(i))).collect();
    assert_eq!(before, after);
}

#[test]
fn backprop_training_learns_xor() {
    let (truth_in, truth_out) = gate(&XOR_GATE);
    let mut nn = seeded(&[2, 2, 1]);
    let mut grad = NeuralNetwork::<Real>::new(&[2, 2, 1]);
    let cost_init = nn.cost(&truth_in, &truth_out).0;
    nn.train(&mut grad, &truth_in, &truth_out, EPOCHS, Real(LEARN_RATE), &Estimator::Backprop);
    let cost = nn.cost(&truth_in, &truth_out).0;
    assert!(cost < cost_init);
    assert!(cost < 0.01);
    assert!(answer(&mut nn, 0., 0.) < 0.1);
    assert!(answer(&mut nn, 1., 0.) > 0.9);
    assert!(answer(&mut nn, 0., 1.) > 0.9);
    assert!(answer(&mut nn, 1., 1.) < 0.1);
}

#[test]
fn finite_diff_training_learns_xor() {
    let (truth_in, truth_out) = gate(&XOR_GATE);
    let mut nn = seeded(&[2, 2, 1]);
    let mut grad = NeuralNetwork::<Real>::new(&[2, 2, 1]);
    let cost_init = nn.cost(&truth_in, &truth_out).0;
    let how = Estimator::FiniteDiff { step: Real(STEP) };
    nn.train(&mut grad, &truth_in, &truth_out, EPOCHS, Real(LEARN_RATE), &how);
    let cost = nn.cost(&truth_in, &truth_out).0;
    assert!(cost < cost_init);
    assert!(cost < 0.01);
}

#[test]
fn one_neuron_learns_the_or_gate() {
    let (truth_in, truth_out) = gate(&OR_GATE);
    let mut nn = seeded(&[2, 1]);
    let mut grad = NeuralNetwork::<Real>::new(&[2, 1]);
    nn.train(&mut grad, &truth_in, &truth_out, EPOCHS, Real(LEARN_RATE), &Estimator::Backprop);
    assert!(answer(&mut nn, 1., 1.) > 0.9);
    assert!(answer(&mut nn, 0., 0.) < 0.1);
    assert!(answer(&mut nn, 1., 0.) > 0.9);
    assert!(answer(&mut nn, 0., 1.) > 0.9);
}

#[test]
fn one_neuron_learns_the_and_gate() {
    let (truth_in, truth_out) = gate(&AND_GATE);
    let mut nn = seeded(&[2, 1]);
    let mut grad = NeuralNetwork::<Real>::new(&[2, 1]);
    let how = Estimator::FiniteDiff { step: Real(STEP) };
    nn.train(&mut grad, &truth_in, &truth_out, EPOCHS, Real(LEARN_RATE), &how);
    assert!(answer(&mut nn, 1., 1.) > 0.9);
    assert!(answer(&mut nn, 0., 0.) < 0.1);
    assert!(answer(&mut nn, 1., 0.) < 0.1);
    assert!(answer(&mut nn, 0., 1.) < 0.1);
}

#[test]
fn one_neuron_cannot_learn_the_xor_gate() {
    let (truth_in, truth_out) = gate(&XOR_GATE);
    let mut nn = seeded(&[2, 1]);
    let mut grad = NeuralNetwork::<Real>::new(&[2, 1]);
    nn.train(&mut grad, &truth_in, &truth_out, EPOCHS, Real(LEARN_RATE), &Estimator::Backprop);
    assert!(nn.cost(&truth_in, &truth_out).0 > 0.2);
}

#[test]
fn backprop_of_an_empty_dataset_is_not_a_number() {
    let mut nn = seeded(&[2, 2, 1]);
    let mut grad = NeuralNetwork::<Real>::new(&[2, 2, 1]);
    let before: Vec<Vec<u32>> = (0..2).map(|i| bits(nn.weights(i))).collect();
    nn.backprop(&mut grad, &Matrix::<Real>::new(0, 2), &Matrix::<Real>::new(0, 1));
    assert!(grad.weights(0).data.iter().all(|v| v.0.is_nan()));
    assert!(grad.biases(1).data.iter().all(|v| v.0.is_nan()));
    let after: Vec<Vec<u32>> = (0..2).map(|i| bits(nn.weights(i))).collect();
    assert_eq!(before, after);
}

#[test]
fn backprop_leaves_the_parameters() {
    let (truth_in, truth_out) = gate(&XOR_GATE);
    let mut nn = seeded(&[2, 2, 1]);
    let mut grad = NeuralNetwork::<Real>::new(&[2, 2, 1]);
    let before: Vec<Vec<u32>> = (0..2).map(|i| bits(nn.weights(i))).collect();
    let before_b: Vec<Vec<u32>> = (0..2).map(|i| bits(nn.biases(i))).collect();
    nn.backprop(&mut grad, &truth_in, &truth_out);
    let after: Vec<Vec<u32>> = (0..2).map(|i| bits(nn.weights(i))).collect();
    let after_b: Vec<Vec<u32>> = (0..2).map(|i| bits(nn.biases(i))).collect();
    assert_eq!(before, after);
    assert_eq!(before_b, after_b);
}

#[test]
fn a_step_of_zero_shows_in_the_cost() {
    // a difference over a step of zero is no number, and neither is
    // anything that is learned from it
    let (truth_in, truth_out) = gate(&XOR_GATE);
    let mut nn = seeded(&[2, 2, 1]);
    let mut grad = NeuralNetwork::<Real>::new(&[2, 2, 1]);
    let how = Estimator::FiniteDiff { step: Real(0.0) };
    nn.train(&mut grad, &truth_in, &truth_out, 2, Real(LEARN_RATE), &how);
    assert!(!nn.cost(&truth_in, &truth_out).0.is_finite());
}
