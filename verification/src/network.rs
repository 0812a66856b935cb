//! The multi-layer perceptron: its layers, the forward pass and the cost.

use crate::matrix::{Grid, Matrix};
use crate::scalar::{place, Arith, Sampler, Scalar};
use vstd::prelude::*;

pub mod estimate;
pub mod train;

verus! {

/// What a network is, mathematically: the weights and the bias row of each
/// layer, and the activation rows, the input's first.
#[verifier::ext_equal]
pub struct Net<S> {
    pub w: Seq<Grid<S>>,
    pub b: Seq<Grid<S>>,
    pub a: Seq<Grid<S>>,
}

impl<S> Net<S> {
    /// The number of weighted layers.
    pub open spec fn layers(self) -> nat {
        self.w.len()
    }

    /// The width of layer `i`, the input being layer 0.
    pub open spec fn width(self, i: int) -> nat {
        self.a[i].columns
    }

    /// The widths of all layers, the input's first.
    pub open spec fn arch(self) -> Seq<nat> {
        Seq::new(self.a.len(), |i: int| self.width(i))
    }

    /// There is at least one layer, no layer is empty, and the shapes fit:
    /// layer `i` has weights of `width(i)` rows and `width(i + 1)` columns,
    /// a bias row of `width(i + 1)` columns, and every activation is a row.
    pub open spec fn wf(self) -> bool {
        &&& self.w.len() >= 1
        &&& self.b.len() == self.w.len()
        &&& self.a.len() == self.w.len() + 1
        &&& forall|i: int|
            0 <= i < self.a.len() ==> {
                &&& (#[trigger] self.a[i]).wf()
                &&& self.a[i].rows == 1
                &&& self.a[i].columns > 0
            }
        &&& forall|i: int|
            0 <= i < self.w.len() ==> {
                &&& (#[trigger] self.w[i]).wf()
                &&& self.w[i].rows == self.a[i].columns
                &&& self.w[i].columns == self.a[i + 1].columns
            }
        &&& forall|i: int|
            0 <= i < self.b.len() ==> {
                &&& (#[trigger] self.b[i]).wf()
                &&& self.b[i].rows == 1
                &&& self.b[i].columns == self.a[i + 1].columns
            }
    }

    /// This network with `v` as the weight in row `r` and column `c` of
    /// layer `i`.
    pub open spec fn with_weight(self, i: int, r: int, c: int, v: S) -> Net<S> {
        Net { w: self.w.update(i, self.w[i].with_cell(r, c, v)), ..self }
    }

    /// This network with `v` as bias `c` of layer `i`.
    pub open spec fn with_bias(self, i: int, c: int, v: S) -> Net<S> {
        Net { b: self.b.update(i, self.b[i].with_cell(0, c, v)), ..self }
    }

    /// This network with `v` as cell `c` of activation row `i`.
    pub open spec fn with_activation(self, i: int, c: int, v: S) -> Net<S> {
        Net { a: self.a.update(i, self.a[i].with_cell(0, c, v)), ..self }
    }

    /// The dataset has a target row for each input row, the input rows are
    /// as wide as the first layer and the target rows as wide as the last.
    pub open spec fn fits(self, inputs: Grid<S>, targets: Grid<S>) -> bool {
        &&& inputs.wf()
        &&& targets.wf()
        &&& inputs.rows == targets.rows
        &&& inputs.columns == self.width(0)
        &&& targets.columns == self.width(self.layers() as int)
    }

    /// In each of the layers before `upto`, every weight, every bias and
    /// every cell of the activation row that goes into the layer is `v`;
    /// the shapes are those of `before`.
    pub open spec fn filled_below(self, before: Net<S>, v: S, upto: int) -> bool {
        &&& forall|i: int|
            0 <= i < upto ==> (#[trigger] self.w[i]) == Grid::filled(
                before.w[i].rows,
                before.w[i].columns,
                v,
            )
        &&& forall|i: int|
            0 <= i < upto ==> (#[trigger] self.b[i]) == Grid::filled(
                before.b[i].rows,
                before.b[i].columns,
                v,
            )
        &&& forall|i: int|
            0 <= i < upto ==> (#[trigger] self.a[i]) == Grid::filled(
                before.a[i].rows,
                before.a[i].columns,
                v,
            )
    }

    /// Every cell of every weight, bias and activation is `v`.
    pub open spec fn is_filled(self, v: S) -> bool {
        &&& forall|i: int|
            0 <= i < self.w.len() ==> (#[trigger] self.w[i]) == Grid::filled(
                self.w[i].rows,
                self.w[i].columns,
                v,
            )
        &&& forall|i: int|
            0 <= i < self.b.len() ==> (#[trigger] self.b[i]) == Grid::filled(
                self.b[i].rows,
                self.b[i].columns,
                v,
            )
        &&& forall|i: int|
            0 <= i < self.a.len() ==> (#[trigger] self.a[i]) == Grid::filled(
                self.a[i].rows,
                self.a[i].columns,
                v,
            )
    }

    /// The same layers with the same shapes.
    pub open spec fn same_shape(self, other: Net<S>) -> bool {
        &&& self.w.len() == other.w.len()
        &&& self.b.len() == other.b.len()
        &&& self.a.len() == other.a.len()
        &&& forall|i: int| 0 <= i < self.w.len() ==> (#[trigger] self.w[i]).same_shape(other.w[i])
        &&& forall|i: int| 0 <= i < self.b.len() ==> (#[trigger] self.b[i]).same_shape(other.b[i])
        &&& forall|i: int| 0 <= i < self.a.len() ==> (#[trigger] self.a[i]).same_shape(other.a[i])
    }
}

impl<S: Scalar> Arith<S> {
    /// What a layer makes of the row `x`: the logistic function of
    /// `x * w + b`.
    pub open spec fn layer(self, x: Grid<S>, w: Grid<S>, b: Grid<S>) -> Grid<S> {
        self.squashed(self.sum(self.product(x, w), b))
    }

    /// The activation of layer `l` for the input row `x`.
    pub open spec fn activation(self, w: Seq<Grid<S>>, b: Seq<Grid<S>>, x: Grid<S>, l: nat) -> Grid<
        S,
    >
        decreases l,
    {
        if l == 0 {
            x
        } else {
            self.layer(self.activation(w, b, x, (l - 1) as nat), w[l - 1], b[l - 1])
        }
    }

    /// The output row for the input row `x`.
    pub open spec fn output(self, w: Seq<Grid<S>>, b: Seq<Grid<S>>, x: Grid<S>) -> Grid<S> {
        self.activation(w, b, x, w.len())
    }

    /// The network after a forward pass: every activation row is what the
    /// layers make of the input row.
    pub open spec fn forwarded(self, net: Net<S>) -> Net<S> {
        Net {
            a: Seq::new(
                net.a.len(),
                |l: int| self.activation(net.w, net.b, net.a[0], l as nat),
            ),
            ..net
        }
    }
}

impl<S: Scalar> Arith<S> {
    /// `acc` and, added to it one after the other, the squares of the
    /// differences between the first `k` cells of the rows `out` and `target`.
    pub open spec fn row_error(self, acc: S, out: Grid<S>, target: Grid<S>, k: nat) -> S
        decreases k,
    {
        if k == 0 {
            acc
        } else {
            let d = (self.minus)(out.at(0, k - 1), target.at(0, k - 1));
            (self.plus)(self.row_error(acc, out, target, (k - 1) as nat), (self.times)(d, d))
        }
    }

    /// The squared error of the network's outputs for the first `n` rows of
    /// `inputs` against the same rows of `targets`, added up from zero.
    pub open spec fn total_error(
        self,
        w: Seq<Grid<S>>,
        b: Seq<Grid<S>>,
        inputs: Grid<S>,
        targets: Grid<S>,
        n: nat,
    ) -> S
        decreases n,
    {
        if n == 0 {
            self.zero()
        } else {
            self.row_error(
                self.total_error(w, b, inputs, targets, (n - 1) as nat),
                self.output(w, b, inputs.row(n - 1)),
                targets.row(n - 1),
                targets.columns,
            )
        }
    }

    /// The mean, over the rows of the dataset, of the squared error.
    pub open spec fn cost(
        self,
        w: Seq<Grid<S>>,
        b: Seq<Grid<S>>,
        inputs: Grid<S>,
        targets: Grid<S>,
    ) -> S {
        (self.over)(
            self.total_error(w, b, inputs, targets, inputs.rows),
            (self.count)(inputs.rows as usize),
        )
    }
}

impl<S> Net<S> {
    /// A network whose grids are well formed and shaped like those of a
    /// well-formed network is well formed.
    pub proof fn lemma_wf_by_shape(self, other: Net<S>)
        requires
            other.wf(),
            self.same_shape(other),
            forall|i: int| 0 <= i < self.w.len() ==> (#[trigger] self.w[i]).wf(),
            forall|i: int| 0 <= i < self.b.len() ==> (#[trigger] self.b[i]).wf(),
            forall|i: int| 0 <= i < self.a.len() ==> (#[trigger] self.a[i]).wf(),
        ensures
            self.wf(),
    {
        assert forall|i: int| 0 <= i < self.a.len() implies {
            &&& (#[trigger] self.a[i]).wf()
            &&& self.a[i].rows == 1
            &&& self.a[i].columns > 0
        } by {
            assert(other.a[i].wf());
        }
        assert forall|i: int| 0 <= i < self.w.len() implies {
            &&& (#[trigger] self.w[i]).wf()
            &&& self.w[i].rows == self.a[i].columns
            &&& self.w[i].columns == self.a[i + 1].columns
        } by {
            assert(other.w[i].wf());
            assert(self.a[i].same_shape(other.a[i]));
            assert(self.a[i + 1].same_shape(other.a[i + 1]));
        }
        assert forall|i: int| 0 <= i < self.b.len() implies {
            &&& (#[trigger] self.b[i]).wf()
            &&& self.b[i].rows == 1
            &&& self.b[i].columns == self.a[i + 1].columns
        } by {
            assert(other.b[i].wf());
            assert(self.a[i + 1].same_shape(other.a[i + 1]));
        }
    }
}

impl<S> Net<S> {
    /// Having the same shape carries over from one network to the next.
    pub proof fn lemma_same_shape_chain(self, mid: Net<S>, other: Net<S>)
        requires
            self.same_shape(mid),
            mid.same_shape(other),
        ensures
            self.same_shape(other),
    {
        assert forall|i: int| 0 <= i < self.w.len() implies (#[trigger] self.w[i]).same_shape(
            other.w[i],
        ) by {
            assert(mid.w[i].same_shape(other.w[i]));
        }
        assert forall|i: int| 0 <= i < self.b.len() implies (#[trigger] self.b[i]).same_shape(
            other.b[i],
        ) by {
            assert(mid.b[i].same_shape(other.b[i]));
        }
        assert forall|i: int| 0 <= i < self.a.len() implies (#[trigger] self.a[i]).same_shape(
            other.a[i],
        ) by {
            assert(mid.a[i].same_shape(other.a[i]));
        }
    }

    /// A network that differs from a well-formed one in the contents of
    /// cells only is well formed and has the same shape.
    pub proof fn lemma_shape_kept(self, after: Net<S>)
        requires
            self.wf(),
            after.w.len() == self.w.len(),
            after.b.len() == self.b.len(),
            after.a.len() == self.a.len(),
            forall|i: int|
                0 <= i < self.w.len() ==> (#[trigger] after.w[i]).same_shape(self.w[i])
                    && after.w[i].cells.len() == self.w[i].cells.len(),
            forall|i: int|
                0 <= i < self.b.len() ==> (#[trigger] after.b[i]).same_shape(self.b[i])
                    && after.b[i].cells.len() == self.b[i].cells.len(),
            forall|i: int|
                0 <= i < self.a.len() ==> (#[trigger] after.a[i]).same_shape(self.a[i])
                    && after.a[i].cells.len() == self.a[i].cells.len(),
        ensures
            after.wf(),
            after.same_shape(self),
    {
        assert forall|i: int| 0 <= i < after.w.len() implies (#[trigger] after.w[i]).wf() by {
            assert(self.w[i].wf());
        }
        assert forall|i: int| 0 <= i < after.b.len() implies (#[trigger] after.b[i]).wf() by {
            assert(self.b[i].wf());
        }
        assert forall|i: int| 0 <= i < after.a.len() implies (#[trigger] after.a[i]).wf() by {
            assert(self.a[i].wf());
        }
        after.lemma_wf_by_shape(self);
    }
}

/// The views of a sequence of matrices.
pub open spec fn grids<S>(ms: Seq<Matrix<S>>) -> Seq<Grid<S>> {
    Seq::new(ms.len(), |i: int| ms[i]@)
}

/// A feed-forward network of fully connected sigmoid layers.
#[derive(Debug)]
pub struct NeuralNetwork<S> {
    w: Vec<Matrix<S>>,
    b: Vec<Matrix<S>>,
    a: Vec<Matrix<S>>,
}

impl<S> View for NeuralNetwork<S> {
    type V = Net<S>;

    closed spec fn view(&self) -> Net<S> {
        Net { w: grids(self.w@), b: grids(self.b@), a: grids(self.a@) }
    }
}

impl<S: Scalar> NeuralNetwork<S> {
    /// The network whose layers have the widths `arch`, the input's first,
    /// with zero in every cell.
    pub fn new(arch: &[usize]) -> (r: Self)
        requires
            arch.len() > 1,
            forall|i: int| 0 <= i < arch.len() ==> arch[i] > 0,
            forall|i: int| 0 <= i < arch.len() - 1 ==> (#[trigger] arch[i]) * arch[i + 1] <= usize::MAX,
        ensures
            r@.wf(),
            r@.layers() == arch.len() - 1,
            r@.a[0].rows == 1 && r@.a[0].columns == arch[0],
            forall|i: int|
                0 <= i < arch.len() - 1 ==> {
                    &&& (#[trigger] r@.w[i]).rows == arch[i]
                    &&& r@.w[i].columns == arch[i + 1]
                },
            forall|i: int|
                0 <= i < arch.len() - 1 ==> {
                    &&& (#[trigger] r@.b[i]).rows == 1
                    &&& r@.b[i].columns == arch[i + 1]
                },
            forall|i: int|
                0 <= i < arch.len() - 1 ==> {
                    &&& (#[trigger] r@.a[i + 1]).rows == 1
                    &&& r@.a[i + 1].columns == arch[i + 1]
                },
            forall|m: Arith<S>| (#[trigger] m.agrees()) ==> r@.is_filled(m.zero()),
    {
        let mut brain = NeuralNetwork { w: Vec::new(), b: Vec::new(), a: Vec::new() };
        brain.a.push(Matrix::new(1, arch[0]));
        let mut i: usize = 1;
        while i < arch.len()
            invariant
                1 <= i <= arch.len(),
                forall|k: int| 0 <= k < arch.len() ==> arch[k] > 0,
                forall|k: int| 0 <= k < arch.len() - 1 ==> (#[trigger] arch[k]) * arch[k + 1] <= usize::MAX,
                brain.w.len() == i - 1,
                brain.b.len() == i - 1,
                brain.a.len() == i,
                forall|k: int|
                    0 <= k < i ==> {
                        &&& (#[trigger] brain.a@[k])@.wf()
                        &&& brain.a@[k].rows == 1
                        &&& brain.a@[k].columns == arch[k]
                    },
                forall|k: int|
                    0 <= k < i - 1 ==> {
                        &&& (#[trigger] brain.w@[k])@.wf()
                        &&& brain.w@[k].rows == arch[k]
                        &&& brain.w@[k].columns == arch[k + 1]
                    },
                forall|k: int|
                    0 <= k < i - 1 ==> {
                        &&& (#[trigger] brain.b@[k])@.wf()
                        &&& brain.b@[k].rows == 1
                        &&& brain.b@[k].columns == arch[k + 1]
                    },
                forall|m: Arith<S>| (#[trigger] m.agrees()) ==> brain@.is_filled(m.zero()),
            decreases arch.len() - i,
        {
            let ghost before = brain@;
            brain.w.push(Matrix::new(arch[i - 1], arch[i]));
            brain.b.push(Matrix::new(1, arch[i]));
            brain.a.push(Matrix::new(1, arch[i]));
            proof {
                let after = brain@;
                assert forall|m: Arith<S>| (#[trigger] m.agrees()) implies after.is_filled(
                    m.zero(),
                ) by {
                    assert(before.is_filled(m.zero()));
                    assert forall|k: int| 0 <= k < after.w.len() implies (#[trigger] after.w[k])
                        == Grid::filled(after.w[k].rows, after.w[k].columns, m.zero()) by {
                        if k < before.w.len() {
                            assert(after.w[k] == before.w[k]);
                        }
                    }
                    assert forall|k: int| 0 <= k < after.b.len() implies (#[trigger] after.b[k])
                        == Grid::filled(after.b[k].rows, after.b[k].columns, m.zero()) by {
                        if k < before.b.len() {
                            assert(after.b[k] == before.b[k]);
                        }
                    }
                    assert forall|k: int| 0 <= k < after.a.len() implies (#[trigger] after.a[k])
                        == Grid::filled(after.a[k].rows, after.a[k].columns, m.zero()) by {
                        if k < before.a.len() {
                            assert(after.a[k] == before.a[k]);
                        }
                    }
                }
            }
            i += 1;
        }
        brain
    }

    /// Draws every weight and every bias anew from `rng`, layer by layer,
    /// the weights of a layer before its biases; the activations stay.
    pub fn rand<R: Sampler<S>>(&mut self, low: S, high: S, rng: &mut R)
        requires
            old(self)@.wf(),
        ensures
            final(self)@.wf(),
            final(self)@.same_shape(old(self)@),
            final(self)@.a == old(self)@.a,
            exists|states: Seq<R>|
                {
                    &&& (#[trigger] states.len()) == final(self)@.parameters(
                        old(self)@.layers(),
                    ).len() + 1
                    &&& states[0] == *old(rng)
                    &&& states[states.len() - 1] == *final(rng)
                    &&& forall|i: int|
                        (#[trigger] place(i)) && i < states.len() - 1 ==> exists|r: &mut R|
                            *r == states[i] && *final(r) == states[i + 1] && #[trigger] call_ensures(
                                R::sample,
                                (r, low, high),
                                final(self)@.parameters(old(self)@.layers())[i],
                            )
                },
    {
        let layers = self.w.len();
        let ghost mut states: Seq<R> = seq![*rng];
        let mut i: usize = 0;
        while i < layers
            invariant
                i <= layers,
                layers == self.w.len(),
                self@.wf(),
                self@.same_shape(old(self)@),
                self.a@ == old(self).a@,
                states.len() == self@.parameters(i as nat).len() + 1,
                states[0] == *old(rng),
                states[states.len() - 1] == *rng,
                forall|k: int|
                    (#[trigger] place(k)) && k < states.len() - 1 ==> exists|r: &mut R|
                        *r == states[k] && *final(r) == states[k + 1] && #[trigger] call_ensures(
                            R::sample,
                            (r, low, high),
                            self@.parameters(i as nat)[k],
                        ),
            decreases layers - i,
        {
            let ghost before = self@;
            let ghost had = states;
            let ghost done = before.parameters(i as nat);
            assert(before.w[i as int].wf() && before.b[i as int].wf());
            let Ghost(for_weights) = self.w[i].fill_drawn(low, high, rng);
            let Ghost(for_biases) = self.b[i].fill_drawn(low, high, rng);
            i += 1;
            proof {
                let after = self@;
                assert forall|k: int| 0 <= k < after.w.len() implies (#[trigger] after.w[k]).wf()
                    && after.w[k].same_shape(before.w[k]) by {
                    assert(before.w[k].wf());
                }
                assert forall|k: int| 0 <= k < after.b.len() implies (#[trigger] after.b[k]).wf()
                    && after.b[k].same_shape(before.b[k]) by {
                    assert(before.b[k].wf());
                }
                assert forall|k: int| 0 <= k < after.a.len() implies (#[trigger] after.a[k]).wf()
                    && after.a[k].same_shape(before.a[k]) by {
                    assert(before.a[k].wf());
                }
                after.lemma_wf_by_shape(before);
                assert forall|k: int| 0 <= k < i - 1 implies after.w[k] == before.w[k] && after.b[k]
                    == before.b[k] by {}
                after.lemma_parameters_of_equal_layers(before, (i - 1) as nat);
                let weights = after.w[i - 1].cells;
                let biases = after.b[i - 1].cells;
                let now = self@.parameters(i as nat);
                assert(now == done + weights + biases);
                assert(weights.len() + 1 == for_weights.len());
                assert(biases.len() + 1 == for_biases.len());
                states = had + for_weights.subrange(1, for_weights.len() as int)
                    + for_biases.subrange(1, for_biases.len() as int);
                assert(states.len() == now.len() + 1);
                assert(states[0] == had[0]);
                assert forall|k: int| (#[trigger] place(k)) && k < states.len() - 1 implies exists|
                    r: &mut R,
                |
                    *r == states[k] && *final(r) == states[k + 1] && #[trigger] call_ensures(
                        R::sample,
                        (r, low, high),
                        self@.parameters(i as nat)[k],
                    ) by {
                    let v = self@.parameters(i as nat)[k];
                    if k < done.len() {
                        assert(v == done[k]);
                        assert(states[k] == had[k]);
                        assert(states[k + 1] == had[k + 1]);
                        assert(place(k));
                        let w = choose|r: &mut R|
                            *r == had[k] && *final(r) == had[k + 1] && #[trigger] call_ensures(
                                R::sample,
                                (r, low, high),
                                done[k],
                            );
                        assert(*w == states[k] && *final(w) == states[k + 1] && call_ensures(
                            R::sample,
                            (w, low, high),
                            v,
                        ));
                    } else if k < done.len() + weights.len() {
                        let j = k - done.len();
                        assert(v == weights[j]);
                        assert(states[k] == for_weights[j]);
                        assert(states[k + 1] == for_weights[j + 1]);
                        assert(place(j));
                        let w = choose|r: &mut R|
                            *r == for_weights[j] && *final(r) == for_weights[j + 1]
                                && #[trigger] call_ensures(R::sample, (r, low, high), weights[j]);
                        assert(*w == states[k] && *final(w) == states[k + 1] && call_ensures(
                            R::sample,
                            (w, low, high),
                            v,
                        ));
                    } else {
                        let j = k - done.len() - weights.len();
                        assert(v == biases[j]);
                        assert(states[k] == for_biases[j]);
                        assert(states[k + 1] == for_biases[j + 1]);
                        assert(place(j));
                        let w = choose|r: &mut R|
                            *r == for_biases[j] && *final(r) == for_biases[j + 1]
                                && #[trigger] call_ensures(R::sample, (r, low, high), biases[j]);
                        assert(*w == states[k] && *final(w) == states[k + 1] && call_ensures(
                            R::sample,
                            (w, low, high),
                            v,
                        ));
                    }
                    assert(exists|r: &mut R|
                        *r == states[k] && *final(r) == states[k + 1] && #[trigger] call_ensures(
                            R::sample,
                            (r, low, high),
                            self@.parameters(i as nat)[k],
                        ));
                }
            }
        }
        proof {
            let count = old(self)@.layers();
            assert(count == i);
            assert(self@.parameters(count) == self@.parameters(i as nat));
            assert(states.len() == self@.parameters(count).len() + 1);
            assert forall|k: int| (#[trigger] place(k)) && k < states.len() - 1 implies exists|
                r: &mut R,
            |
                *r == states[k] && *final(r) == states[k + 1] && #[trigger] call_ensures(
                    R::sample,
                    (r, low, high),
                    self@.parameters(old(self)@.layers())[k],
                ) by {
                let v = self@.parameters(i as nat)[k];
                assert(v == self@.parameters(old(self)@.layers())[k]);
                assert(place(k));
                let w = choose|r: &mut R|
                    *r == states[k] && *final(r) == states[k + 1] && #[trigger] call_ensures(
                        R::sample,
                        (r, low, high),
                        v,
                    );
                assert(*w == states[k] && *final(w) == states[k + 1] && call_ensures(
                    R::sample,
                    (w, low, high),
                    self@.parameters(old(self)@.layers())[k],
                ));
                assert(exists|r: &mut R|
                    *r == states[k] && *final(r) == states[k + 1] && #[trigger] call_ensures(
                        R::sample,
                        (r, low, high),
                        self@.parameters(old(self)@.layers())[k],
                    ));
            }
        }
    }

    /// Runs the input row through the layers, one after the other.
    pub fn forward(&mut self)
        requires
            old(self)@.wf(),
        ensures
            final(self)@.wf(),
            final(self)@.same_shape(old(self)@),
            final(self)@.w == old(self)@.w,
            final(self)@.b == old(self)@.b,
            final(self)@.a[0] == old(self)@.a[0],
            forall|m: Arith<S>| (#[trigger] m.agrees()) ==> final(self)@ == m.forwarded(old(self)@),
            forall|m: Arith<S>| (#[trigger] m.agrees()) ==> forall|l: nat|
                    l <= old(self)@.layers() ==> final(self)@.a[l as int] == m.activation(
                        old(self)@.w,
                        old(self)@.b,
                        old(self)@.a[0],
                        l,
                    ),
    {
        let layers = self.w.len();
        let mut i: usize = 0;
        while i < layers
            invariant
                i <= layers,
                layers == self.w.len(),
                self@.wf(),
                self@.same_shape(old(self)@),
                self.w@ == old(self).w@,
                self.b@ == old(self).b@,
                self.a@[0] == old(self).a@[0],
                forall|m: Arith<S>| (#[trigger] m.agrees()) ==> forall|l: nat|
                        l <= i ==> self.a@[l as int]@ == m.activation(
                            old(self)@.w,
                            old(self)@.b,
                            old(self)@.a[0],
                            l,
                        ),
            decreases layers - i,
        {
            let ghost before = self@;
            assert(before.a[i as int].wf() && before.a[i + 1].wf());
            assert(before.w[i as int].wf() && before.b[i as int].wf());
            self.a[i + 1] = self.a[i].clone();
            self.a[i + 1].dot(&self.w[i]);
            self.a[i + 1].add(&self.b[i]);
            self.a[i + 1].sigmoid();
            proof {
                let after = self@;
                assert(after.w == before.w && after.b == before.b);
                assert(after.a[i + 1].same_shape(before.a[i + 1]) && after.a[i + 1].wf());
                assert forall|k: int| 0 <= k < after.a.len() && k != i + 1 implies after.a[k]
                    == before.a[k] by {}
                assert forall|k: int| 0 <= k < after.a.len() implies (#[trigger] after.a[k]).wf()
                    && after.a[k].same_shape(before.a[k]) by {
                    assert(before.a[k].wf());
                }
                after.lemma_wf_by_shape(before);
                assert forall|m: Arith<S>| (#[trigger] m.agrees()) implies forall|l: nat|
                    l <= i + 1 ==> self.a@[l as int]@ == m.activation(
                        old(self)@.w,
                        old(self)@.b,
                        old(self)@.a[0],
                        l,
                    ) by {
                    assert forall|l: nat| l <= i + 1 implies self.a@[l as int]@ == m.activation(
                        old(self)@.w,
                        old(self)@.b,
                        old(self)@.a[0],
                        l,
                    ) by {
                        if l <= i {
                            assert(after.a[l as int] == before.a[l as int]);
                        } else {
                            assert(before.a[i as int] == m.activation(
                                old(self)@.w,
                                old(self)@.b,
                                old(self)@.a[0],
                                i as nat,
                            ));
                            assert(after.a[i + 1] == m.layer(
                                before.a[i as int],
                                before.w[i as int],
                                before.b[i as int],
                            ));
                        }
                    }
                }
            }
            i += 1;
        }
    }

    /// Makes `input` the input row.
    pub fn input(&mut self, input: &Matrix<S>)
        requires
            old(self)@.wf(),
            input@.wf(),
            input.rows == 1,
            input.columns == old(self)@.w[0].rows,
        ensures
            final(self)@.wf(),
            final(self)@.same_shape(old(self)@),
            final(self)@.w == old(self)@.w,
            final(self)@.b == old(self)@.b,
            final(self)@.a == old(self)@.a.update(0, input@),
    {
        let ghost before = self@;
        assert(before.w[0].wf() && before.a[0].wf());
        self.a[0] = input.clone();
        proof {
            let after = self@;
            assert(after.a == before.a.update(0, input@));
            assert forall|k: int| 0 <= k < after.a.len() implies (#[trigger] after.a[k]).wf()
                && after.a[k].same_shape(before.a[k]) by {
                assert(before.a[k].wf());
            }
            assert forall|k: int| 0 <= k < after.w.len() implies (#[trigger] after.w[k]).wf() by {
                assert(before.w[k].wf());
            }
            assert forall|k: int| 0 <= k < after.b.len() implies (#[trigger] after.b[k]).wf() by {
                assert(before.b[k].wf());
            }
            after.lemma_wf_by_shape(before);
        }
    }

    /// The output row: the activation of the last layer.
    pub fn output(&mut self) -> (r: &mut Matrix<S>)
        requires
            old(self)@.wf(),
        ensures
            r@ == old(self)@.a[old(self)@.layers() as int],
            final(self)@.w == old(self)@.w,
            final(self)@.b == old(self)@.b,
            final(self)@.a == old(self)@.a.update(old(self)@.layers() as int, final(r)@),
    {
        let layers = self.a.len();
        &mut self.a[layers - 1]
    }

    /// The number of weighted layers.
    pub fn layers(&self) -> (r: usize)
        requires
            self@.wf(),
        ensures
            r == self@.layers(),
    {
        self.w.len()
    }

    /// The width of layer `layer`, the input being layer 0.
    pub fn width(&self, layer: usize) -> (r: usize)
        requires
            self@.wf(),
            layer <= self@.layers(),
        ensures
            r == self@.width(layer as int),
    {
        self.a[layer].columns
    }

    /// The weights of layer `layer`.
    pub fn weights(&self, layer: usize) -> (r: &Matrix<S>)
        requires
            self@.wf(),
            layer < self@.layers(),
        ensures
            r@ == self@.w[layer as int],
    {
        &self.w[layer]
    }

    /// The bias row of layer `layer`.
    pub fn biases(&self, layer: usize) -> (r: &Matrix<S>)
        requires
            self@.wf(),
            layer < self@.layers(),
        ensures
            r@ == self@.b[layer as int],
    {
        &self.b[layer]
    }

    /// Activation row `layer`, the input being row 0.
    pub fn activations(&self, layer: usize) -> (r: &Matrix<S>)
        requires
            self@.wf(),
            layer <= self@.layers(),
        ensures
            r@ == self@.a[layer as int],
    {
        &self.a[layer]
    }

    /// The weight in row `row` and column `col` of layer `layer`.
    pub fn weight(&self, layer: usize, row: usize, col: usize) -> (r: S)
        requires
            self@.wf(),
            layer < self@.layers(),
            row < self@.w[layer as int].rows,
            col < self@.w[layer as int].columns,
        ensures
            r == self@.w[layer as int].at(row as int, col as int),
    {
        assert(self@.w[layer as int].wf());
        self.w[layer].get(row, col)
    }

    /// Bias `col` of layer `layer`.
    pub fn bias(&self, layer: usize, col: usize) -> (r: S)
        requires
            self@.wf(),
            layer < self@.layers(),
            col < self@.b[layer as int].columns,
        ensures
            r == self@.b[layer as int].at(0, col as int),
    {
        assert(self@.b[layer as int].wf());
        self.b[layer].get(0, col)
    }

    /// Cell `col` of activation row `layer`, the input being row 0.
    pub fn activation(&self, layer: usize, col: usize) -> (r: S)
        requires
            self@.wf(),
            layer <= self@.layers(),
            col < self@.a[layer as int].columns,
        ensures
            r == self@.a[layer as int].at(0, col as int),
    {
        assert(self@.a[layer as int].wf());
        self.a[layer].get(0, col)
    }

    /// Makes `value` the weight in row `row` and column `col` of layer
    /// `layer`.
    pub fn set_weight(&mut self, layer: usize, row: usize, col: usize, value: S)
        requires
            old(self)@.wf(),
            layer < old(self)@.layers(),
            row < old(self)@.w[layer as int].rows,
            col < old(self)@.w[layer as int].columns,
        ensures
            final(self)@ == old(self)@.with_weight(layer as int, row as int, col as int, value),
            final(self)@.wf(),
            final(self)@.same_shape(old(self)@),
    {
        let ghost before = self@;
        assert(before.w[layer as int].wf());
        self.w[layer].set(row, col, value);
        proof {
            let after = self@;
            assert(after.w =~= before.with_weight(layer as int, row as int, col as int, value).w);
            before.lemma_shape_kept(after);
        }
    }

    /// Makes `value` bias `col` of layer `layer`.
    pub fn set_bias(&mut self, layer: usize, col: usize, value: S)
        requires
            old(self)@.wf(),
            layer < old(self)@.layers(),
            col < old(self)@.b[layer as int].columns,
        ensures
            final(self)@ == old(self)@.with_bias(layer as int, col as int, value),
            final(self)@.wf(),
            final(self)@.same_shape(old(self)@),
    {
        let ghost before = self@;
        assert(before.b[layer as int].wf());
        self.b[layer].set(0, col, value);
        proof {
            let after = self@;
            assert(after.b =~= before.with_bias(layer as int, col as int, value).b);
            before.lemma_shape_kept(after);
        }
    }

    /// Makes `value` cell `col` of activation row `layer`.
    pub fn set_activation(&mut self, layer: usize, col: usize, value: S)
        requires
            old(self)@.wf(),
            layer <= old(self)@.layers(),
            col < old(self)@.a[layer as int].columns,
        ensures
            final(self)@ == old(self)@.with_activation(layer as int, col as int, value),
            final(self)@.wf(),
            final(self)@.same_shape(old(self)@),
    {
        let ghost before = self@;
        assert(before.a[layer as int].wf());
        self.a[layer].set(0, col, value);
        proof {
            let after = self@;
            assert(after.a =~= before.with_activation(layer as int, col as int, value).a);
            before.lemma_shape_kept(after);
        }
    }

    /// The mean squared error of the network's outputs for the rows of
    /// `truth_in` against the rows of `truth_out`. The activations are left
    /// as the forward pass for the last row made them.
    pub fn cost(&mut self, truth_in: &Matrix<S>, truth_out: &Matrix<S>) -> (r: S)
        requires
            old(self)@.wf(),
            old(self)@.fits(truth_in@, truth_out@),
        ensures
            final(self)@.wf(),
            final(self)@.same_shape(old(self)@),
            final(self)@.w == old(self)@.w,
            final(self)@.b == old(self)@.b,
            truth_in.rows == 0 ==> final(self)@.a == old(self)@.a,
            forall|m: Arith<S>| (#[trigger] m.agrees()) ==> {
                    &&& r == m.cost(old(self)@.w, old(self)@.b, truth_in@, truth_out@)
                    &&& truth_in.rows > 0 ==> forall|l: nat|
                        l <= old(self)@.layers() ==> final(self)@.a[l as int] == m.activation(
                            old(self)@.w,
                            old(self)@.b,
                            truth_in@.row(truth_in.rows - 1),
                            l,
                        )
                },
    {
        let rows = truth_in.rows;
        let layers = self.w.len();
        let mut cost = S::from_count(0);
        let mut row: usize = 0;
        while row < rows
            invariant
                row <= rows,
                rows == truth_in.rows,
                layers == self.w.len(),
                self@.wf(),
                self@.same_shape(old(self)@),
                self@.w == old(self)@.w,
                self@.b == old(self)@.b,
                old(self)@.wf(),
                old(self)@.fits(truth_in@, truth_out@),
                row == 0 ==> self@.a == old(self)@.a,
                forall|m: Arith<S>| (#[trigger] m.agrees()) ==> {
                        &&& cost == m.total_error(
                            old(self)@.w,
                            old(self)@.b,
                            truth_in@,
                            truth_out@,
                            row as nat,
                        )
                        &&& row > 0 ==> forall|l: nat|
                            l <= layers ==> self@.a[l as int] == m.activation(
                                old(self)@.w,
                                old(self)@.b,
                                truth_in@.row(row - 1),
                                l,
                            )
                    },
            decreases rows - row,
        {
            assert(old(self)@.a[0].wf() && old(self)@.w[0].wf() && old(self)@.a[layers as int].wf());
            assert(self@.a[layers as int].same_shape(old(self)@.a[layers as int]));
            let x = truth_in.row(row);
            let y = truth_out.row(row);
            self.input(&x);
            self.forward();
            let ghost mid = self@;
            let ghost sofar = cost;
            assert(mid.a[layers as int].wf());
            let mut col: usize = 0;
            while col < y.columns
                invariant
                    col <= y.columns,
                    layers == self.w.len(),
                    self@ == mid,
                    mid.wf(),
                    y@.wf(),
                    y.rows == 1,
                    y.columns == mid.a[layers as int].columns,
                    forall|m: Arith<S>| (#[trigger] m.agrees()) ==> cost == m.row_error(
                            sofar,
                            mid.a[layers as int],
                            y@,
                            col as nat,
                        ),
                decreases y.columns - col,
            {
                assert(mid.a[layers as int].wf());
                let d = self.a[layers].get(0, col).minus(y.get(0, col));
                cost = cost.plus(d.times(d));
                col += 1;
            }
            row += 1;
        }
        cost.over(S::from_count(rows))
    }

    /// Puts `value` into every weight and every bias and into every
    /// activation but the output row, and zero into the output row.
    pub fn fill(&mut self, value: S)
        requires
            old(self)@.wf(),
        ensures
            final(self)@.wf(),
            final(self)@.same_shape(old(self)@),
            final(self)@.filled_below(old(self)@, value, old(self)@.layers() as int),
            forall|m: Arith<S>| (#[trigger] m.agrees()) ==> final(self)@.a[old(
                self,
            )@.layers() as int] == Grid::filled(
                1,
                old(self)@.width(old(self)@.layers() as int),
                m.zero(),
            ),
    {
        let ghost start = self@;
        let layers = self.w.len();
        let mut i: usize = 0;
        while i < layers
            invariant
                i <= layers,
                layers == start.layers(),
                start.wf(),
                self@.wf(),
                self@.same_shape(start),
                self@.filled_below(start, value, i as int),
            decreases layers - i,
        {
            let ghost before = self@;
            proof {
                assert(before.w[i as int].wf() && before.b[i as int].wf() && before.a[i as int].wf());
                assert(before.w[i as int].same_shape(start.w[i as int]));
                assert(before.b[i as int].same_shape(start.b[i as int]));
                assert(before.a[i as int].same_shape(start.a[i as int]));
            }
            self.w[i].fill(value);
            self.b[i].fill(value);
            self.a[i].fill(value);
            proof {
                let after = self@;
                assert forall|k: int| 0 <= k < after.w.len() implies (#[trigger] after.w[k]).same_shape(
                    before.w[k],
                ) && after.w[k].cells.len() == before.w[k].cells.len() by {
                    assert(before.w[k].wf());
                    if k != i {
                        assert(after.w[k] == before.w[k]);
                    }
                }
                assert forall|k: int| 0 <= k < after.b.len() implies (#[trigger] after.b[k]).same_shape(
                    before.b[k],
                ) && after.b[k].cells.len() == before.b[k].cells.len() by {
                    assert(before.b[k].wf());
                    if k != i {
                        assert(after.b[k] == before.b[k]);
                    }
                }
                assert forall|k: int| 0 <= k < after.a.len() implies (#[trigger] after.a[k]).same_shape(
                    before.a[k],
                ) && after.a[k].cells.len() == before.a[k].cells.len() by {
                    assert(before.a[k].wf());
                    if k != i {
                        assert(after.a[k] == before.a[k]);
                    }
                }
                before.lemma_shape_kept(after);
                after.lemma_same_shape_chain(before, start);
                assert forall|k: int| 0 <= k < i + 1 implies (#[trigger] after.w[k]) == Grid::filled(
                    start.w[k].rows,
                    start.w[k].columns,
                    value,
                ) by {
                    if k < i {
                        assert(after.w[k] == before.w[k]);
                    }
                }
                assert forall|k: int| 0 <= k < i + 1 implies (#[trigger] after.b[k]) == Grid::filled(
                    start.b[k].rows,
                    start.b[k].columns,
                    value,
                ) by {
                    if k < i {
                        assert(after.b[k] == before.b[k]);
                    }
                }
                assert forall|k: int| 0 <= k < i + 1 implies (#[trigger] after.a[k]) == Grid::filled(
                    start.a[k].rows,
                    start.a[k].columns,
                    value,
                ) by {
                    if k < i {
                        assert(after.a[k] == before.a[k]);
                    }
                }
                assert(after.filled_below(start, value, i + 1));
            }
            i += 1;
        }
        let ghost before = self@;
        proof {
            assert(before.a[layers as int].wf());
            assert(before.a[layers as int].same_shape(start.a[layers as int]));
            assert(start.a[layers as int].wf());
        }
        let last = self.a.len() - 1;
        self.a[last].fill(S::from_count(0));
        proof {
            let after = self@;
            assert(after.w == before.w && after.b == before.b);
            assert forall|k: int| 0 <= k < after.a.len() implies (#[trigger] after.a[k]).same_shape(
                before.a[k],
            ) && after.a[k].cells.len() == before.a[k].cells.len() by {
                assert(before.a[k].wf());
                if k != layers {
                    assert(after.a[k] == before.a[k]);
                }
            }
            before.lemma_shape_kept(after);
            after.lemma_same_shape_chain(before, start);
            assert forall|k: int| 0 <= k < layers implies (#[trigger] after.a[k]) == Grid::filled(
                start.a[k].rows,
                start.a[k].columns,
                value,
            ) by {
                assert(after.a[k] == before.a[k]);
            }
            assert(after.filled_below(start, value, layers as int));
        }
    }
}

impl<S> Net<S> {
    /// The weights and biases of the first `n` layers, one after the other:
    /// layer by layer, the weights of a layer row by row before its biases.
    pub open spec fn parameters(self, n: nat) -> Seq<S>
        decreases n,
    {
        if n == 0 {
            Seq::empty()
        } else {
            self.parameters((n - 1) as nat) + self.w[n - 1].cells + self.b[n - 1].cells
        }
    }

    /// Networks with the same weights and biases in the first `n` layers
    /// have the same parameters there.
    pub proof fn lemma_parameters_of_equal_layers(self, other: Net<S>, n: nat)
        requires
            forall|k: int| 0 <= k < n ==> self.w[k] == other.w[k] && self.b[k] == other.b[k],
        ensures
            self.parameters(n) == other.parameters(n),
        decreases n,
    {
        if n > 0 {
            self.lemma_parameters_of_equal_layers(other, (n - 1) as nat);
        }
    }
}

} // verus!
