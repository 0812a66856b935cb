//! Gradient descent: one step, and the training loop.

use crate::matrix::{lemma_cell_index, lemma_cell_place, Grid, Matrix};
use crate::network::{Net, NeuralNetwork};
use crate::scalar::{Arith, Scalar};
use vstd::prelude::*;

verus! {

/// How the gradient of the cost is found.
pub enum Estimator<S> {
    /// By finite differences: each parameter in turn is raised by `step`.
    FiniteDiff { step: S },
    /// By backpropagation.
    Backprop,
}

/// The parameters of a network: the weights and the bias row of each layer.
#[verifier::ext_equal]
pub struct Params<S> {
    pub w: Seq<Grid<S>>,
    pub b: Seq<Grid<S>>,
}

impl<S> Net<S> {
    /// The parameters of this network.
    pub open spec fn params(self) -> Params<S> {
        Params { w: self.w, b: self.b }
    }
}

impl<S: Scalar> Arith<S> {
    /// Every grid of `g` with every cell multiplied by `rate`.
    pub open spec fn scaled_all(self, g: Seq<Grid<S>>, rate: S) -> Seq<Grid<S>> {
        Seq::new(g.len(), |i: int| self.scaled(g[i], rate))
    }

    /// Every grid of `p` less `rate` times the grid of `g` in its place.
    pub open spec fn descended(self, p: Seq<Grid<S>>, g: Seq<Grid<S>>, rate: S) -> Seq<Grid<S>> {
        Seq::new(p.len(), |i: int| self.difference(p[i], self.scaled(g[i], rate)))
    }

    /// The first `upto` layers of `after` and of `gafter` are what one step
    /// of gradient descent makes of those of `before` and of `gbefore`.
    pub open spec fn learned(
        self,
        before: Net<S>,
        gbefore: Net<S>,
        after: Net<S>,
        gafter: Net<S>,
        rate: S,
        upto: int,
    ) -> bool {
        &&& forall|k: int|
            0 <= k < upto ==> (#[trigger] gafter.w[k]) == self.scaled(gbefore.w[k], rate)
        &&& forall|k: int|
            0 <= k < upto ==> (#[trigger] gafter.b[k]) == self.scaled(gbefore.b[k], rate)
        &&& forall|k: int|
            0 <= k < upto ==> (#[trigger] after.w[k]) == self.difference(
                before.w[k],
                self.scaled(gbefore.w[k], rate),
            )
        &&& forall|k: int|
            0 <= k < upto ==> (#[trigger] after.b[k]) == self.difference(
                before.b[k],
                self.scaled(gbefore.b[k], rate),
            )
    }

    /// The gradient of the cost as finite differences give it: for each
    /// parameter the slope of the cost along it.
    pub open spec fn slopes(self, p: Params<S>, inputs: Grid<S>, targets: Grid<S>, step: S) -> Params<
        S,
    > {
        Params {
            w: Seq::new(
                p.w.len(),
                |i: int|
                    Grid {
                        cells: Seq::new(
                            p.w[i].cells.len(),
                            |k: int| self.weight_slope(p.w, p.b, inputs, targets, step, i, k),
                        ),
                        ..p.w[i]
                    },
            ),
            b: Seq::new(
                p.b.len(),
                |i: int|
                    Grid {
                        cells: Seq::new(
                            p.b[i].cells.len(),
                            |k: int| self.bias_slope(p.w, p.b, inputs, targets, step, i, k),
                        ),
                        ..p.b[i]
                    },
            ),
        }
    }

    /// The gradient as backpropagation gives it.
    pub open spec fn gradient(self, p: Params<S>, inputs: Grid<S>, targets: Grid<S>) -> Params<S> {
        Params {
            w: Seq::new(
                p.w.len(),
                |i: int|
                    Grid {
                        cells: Seq::new(
                            p.w[i].cells.len(),
                            |c: int|
                                self.weight_gradient(
                                    p.w,
                                    p.b,
                                    inputs,
                                    targets,
                                    i,
                                    c / (p.w[i].columns as int),
                                    c % (p.w[i].columns as int),
                                ),
                        ),
                        ..p.w[i]
                    },
            ),
            b: Seq::new(
                p.b.len(),
                |i: int|
                    Grid {
                        cells: Seq::new(
                            p.b[i].cells.len(),
                            |c: int| self.bias_gradient(p.w, p.b, inputs, targets, i, c),
                        ),
                        ..p.b[i]
                    },
            ),
        }
    }

    /// The gradient of the cost as the estimator `how` gives it.
    pub open spec fn estimate(
        self,
        how: Estimator<S>,
        p: Params<S>,
        inputs: Grid<S>,
        targets: Grid<S>,
    ) -> Params<S> {
        match how {
            Estimator::FiniteDiff { step } => self.slopes(p, inputs, targets, step),
            Estimator::Backprop => self.gradient(p, inputs, targets),
        }
    }

    /// The parameters after one epoch: each parameter less `rate` times the
    /// gradient along it.
    pub open spec fn epoch(
        self,
        how: Estimator<S>,
        p: Params<S>,
        inputs: Grid<S>,
        targets: Grid<S>,
        rate: S,
    ) -> Params<S> {
        let g = self.estimate(how, p, inputs, targets);
        Params { w: self.descended(p.w, g.w, rate), b: self.descended(p.b, g.b, rate) }
    }

    /// The parameters after `n` epochs.
    pub open spec fn trained(
        self,
        how: Estimator<S>,
        p: Params<S>,
        inputs: Grid<S>,
        targets: Grid<S>,
        rate: S,
        n: nat,
    ) -> Params<S>
        decreases n,
    {
        if n == 0 {
            p
        } else {
            self.epoch(how, self.trained(how, p, inputs, targets, rate, (n - 1) as nat), inputs, targets, rate)
        }
    }

    /// A network that holds the slope along every parameter holds the
    /// finite-difference gradient.
    proof fn lemma_slopes_held(
        self,
        net: Net<S>,
        g: Net<S>,
        inputs: Grid<S>,
        targets: Grid<S>,
        step: S,
    )
        requires
            net.wf(),
            g.wf(),
            g.same_shape(net),
            self.slopes_held(net.w, net.b, inputs, targets, step, g, net.layers() as int),
        ensures
            g.params() == self.slopes(net.params(), inputs, targets, step),
    {
        let want = self.slopes(net.params(), inputs, targets, step);
        assert forall|i: int| 0 <= i < g.w.len() implies g.w[i] == want.w[i] by {
            assert(g.w[i].wf() && net.w[i].wf() && g.w[i].same_shape(net.w[i]));
            assert(self.weight_slopes(
                g.w[i],
                net.w,
                net.b,
                inputs,
                targets,
                step,
                i,
                net.w[i].cells.len() as int,
            ));
            assert(g.w[i].cells =~= want.w[i].cells);
        }
        assert forall|i: int| 0 <= i < g.b.len() implies g.b[i] == want.b[i] by {
            assert(g.b[i].wf() && net.b[i].wf() && g.b[i].same_shape(net.b[i]));
            assert(g.w[i].wf());
            assert(self.bias_slopes(
                g.b[i],
                net.w,
                net.b,
                inputs,
                targets,
                step,
                i,
                net.b[i].cells.len() as int,
            ));
            assert(g.b[i].cells =~= want.b[i].cells);
        }
        assert(g.w =~= want.w);
        assert(g.b =~= want.b);
    }

    /// A network that holds what backpropagation gives for every parameter
    /// holds the gradient as backpropagation gives it.
    proof fn lemma_gradient_held(self, net: Net<S>, g: Net<S>, inputs: Grid<S>, targets: Grid<S>)
        requires
            net.wf(),
            g.wf(),
            g.same_shape(net),
            self.gradient_held(net.w, net.b, inputs, targets, g, net.layers() as int),
        ensures
            g.params() == self.gradient(net.params(), inputs, targets),
    {
        let want = self.gradient(net.params(), inputs, targets);
        assert forall|i: int| 0 <= i < g.w.len() implies g.w[i] == want.w[i] by {
            assert(g.w[i].wf() && net.w[i].wf() && g.w[i].same_shape(net.w[i]));
            assert forall|c: int| 0 <= c < g.w[i].cells.len() implies g.w[i].cells[c]
                == want.w[i].cells[c] by {
                let columns = net.w[i].columns as int;
                lemma_cell_place(net.w[i].rows as int, columns, c);
                assert(g.w[i].at(c / columns, c % columns) == self.weight_gradient(
                    net.w,
                    net.b,
                    inputs,
                    targets,
                    i,
                    c / columns,
                    c % columns,
                ));
            }
            assert(g.w[i].cells =~= want.w[i].cells);
        }
        assert forall|i: int| 0 <= i < g.b.len() implies g.b[i] == want.b[i] by {
            assert(g.b[i].wf() && net.b[i].wf() && g.b[i].same_shape(net.b[i]));
            assert(net.w[i].wf() && net.a[i + 1].wf());
            assert forall|c: int| 0 <= c < g.b[i].cells.len() implies g.b[i].cells[c]
                == want.b[i].cells[c] by {
                assert(g.b[i].at(0, c) == self.bias_gradient(
                    net.w,
                    net.b,
                    inputs,
                    targets,
                    i,
                    c,
                ));
            }
            assert(g.b[i].cells =~= want.b[i].cells);
        }
        assert(g.w =~= want.w);
        assert(g.b =~= want.b);
    }
}

impl<S: Scalar> NeuralNetwork<S> {
    /// One step of gradient descent: every weight and every bias of `grad`
    /// is multiplied by `rate` and then taken off the parameter in its
    /// place.
    pub fn learn(&mut self, grad: &mut NeuralNetwork<S>, rate: S)
        requires
            old(self)@.wf(),
            old(grad)@.wf(),
            old(grad)@.same_shape(old(self)@),
        ensures
            final(self)@.wf(),
            final(self)@.same_shape(old(self)@),
            final(self)@.a == old(self)@.a,
            final(grad)@.wf(),
            final(grad)@.same_shape(old(grad)@),
            final(grad)@.a == old(grad)@.a,
            forall|m: Arith<S>| (#[trigger] m.agrees()) ==> {
                &&& final(grad)@.w == m.scaled_all(old(grad)@.w, rate)
                &&& final(grad)@.b == m.scaled_all(old(grad)@.b, rate)
                &&& final(self)@.w == m.descended(old(self)@.w, old(grad)@.w, rate)
                &&& final(self)@.b == m.descended(old(self)@.b, old(grad)@.b, rate)
            },
    {
        let ghost start = self@;
        let ghost g0 = grad@;
        let layers = self.w.len();
        let mut i: usize = 0;
        while i < layers
            invariant
                i <= layers,
                layers == start.layers(),
                start.wf(),
                g0.wf(),
                g0.same_shape(start),
                self@.wf(),
                self@.same_shape(start),
                self@.a == start.a,
                grad@.wf(),
                grad@.same_shape(g0),
                grad@.a == g0.a,
                forall|k: int| i <= k < layers ==> (#[trigger] self@.w[k]) == start.w[k],
                forall|k: int| i <= k < layers ==> (#[trigger] self@.b[k]) == start.b[k],
                forall|k: int| i <= k < layers ==> (#[trigger] grad@.w[k]) == g0.w[k],
                forall|k: int| i <= k < layers ==> (#[trigger] grad@.b[k]) == g0.b[k],
                forall|m: Arith<S>| (#[trigger] m.agrees()) ==> m.learned(
                    start,
                    g0,
                    self@,
                    grad@,
                    rate,
                    i as int,
                ),
            decreases layers - i,
        {
            let ghost net = self@;
            let ghost gi = grad@;
            proof {
                assert(net.w[i as int].wf() && net.b[i as int].wf());
                assert(gi.w[i as int].wf() && gi.b[i as int].wf());
                assert(gi.w[i as int].same_shape(g0.w[i as int]));
                assert(g0.w[i as int].same_shape(start.w[i as int]));
                assert(net.w[i as int].same_shape(start.w[i as int]));
                assert(gi.b[i as int].same_shape(g0.b[i as int]));
                assert(g0.b[i as int].same_shape(start.b[i as int]));
                assert(net.b[i as int].same_shape(start.b[i as int]));
            }
            grad.w[i].dotf(rate);
            self.w[i].sub(&grad.w[i]);
            grad.b[i].dotf(rate);
            self.b[i].sub(&grad.b[i]);
            proof {
                let after = self@;
                let gafter = grad@;
                assert(after.a == net.a && gafter.a == gi.a);
                assert forall|k: int| 0 <= k < layers implies (#[trigger] after.w[k]).same_shape(
                    net.w[k],
                ) && after.w[k].cells.len() == net.w[k].cells.len() by {
                    assert(net.w[k].wf());
                    if k != i {
                        assert(after.w[k] == net.w[k]);
                    }
                }
                assert forall|k: int| 0 <= k < layers implies (#[trigger] after.b[k]).same_shape(
                    net.b[k],
                ) && after.b[k].cells.len() == net.b[k].cells.len() by {
                    assert(net.b[k].wf());
                    if k != i {
                        assert(after.b[k] == net.b[k]);
                    }
                }
                assert forall|k: int| 0 <= k < layers implies (#[trigger] gafter.w[k]).same_shape(
                    gi.w[k],
                ) && gafter.w[k].cells.len() == gi.w[k].cells.len() by {
                    assert(gi.w[k].wf());
                    if k != i {
                        assert(gafter.w[k] == gi.w[k]);
                    }
                }
                assert forall|k: int| 0 <= k < layers implies (#[trigger] gafter.b[k]).same_shape(
                    gi.b[k],
                ) && gafter.b[k].cells.len() == gi.b[k].cells.len() by {
                    assert(gi.b[k].wf());
                    if k != i {
                        assert(gafter.b[k] == gi.b[k]);
                    }
                }
                net.lemma_shape_kept(after);
                gi.lemma_shape_kept(gafter);
                after.lemma_same_shape_chain(net, start);
                gafter.lemma_same_shape_chain(gi, g0);
                assert forall|k: int| i + 1 <= k < layers implies (#[trigger] after.w[k])
                    == start.w[k] by {
                    assert(after.w[k] == net.w[k]);
                }
                assert forall|k: int| i + 1 <= k < layers implies (#[trigger] after.b[k])
                    == start.b[k] by {
                    assert(after.b[k] == net.b[k]);
                }
                assert forall|k: int| i + 1 <= k < layers implies (#[trigger] gafter.w[k])
                    == g0.w[k] by {
                    assert(gafter.w[k] == gi.w[k]);
                }
                assert forall|k: int| i + 1 <= k < layers implies (#[trigger] gafter.b[k])
                    == g0.b[k] by {
                    assert(gafter.b[k] == gi.b[k]);
                }
                assert forall|m: Arith<S>| (#[trigger] m.agrees()) implies m.learned(
                    start,
                    g0,
                    after,
                    gafter,
                    rate,
                    i + 1,
                ) by {
                    assert(m.learned(start, g0, net, gi, rate, i as int));
                    assert(gi.w[i as int] == g0.w[i as int]);
                    assert(gi.b[i as int] == g0.b[i as int]);
                    assert(net.w[i as int] == start.w[i as int]);
                    assert(net.b[i as int] == start.b[i as int]);
                    assert forall|k: int| 0 <= k < i + 1 implies (#[trigger] gafter.w[k]) == m.scaled(
                        g0.w[k],
                        rate,
                    ) by {
                        if k < i {
                            assert(gafter.w[k] == gi.w[k]);
                        }
                    }
                    assert forall|k: int| 0 <= k < i + 1 implies (#[trigger] gafter.b[k]) == m.scaled(
                        g0.b[k],
                        rate,
                    ) by {
                        if k < i {
                            assert(gafter.b[k] == gi.b[k]);
                        }
                    }
                    assert forall|k: int| 0 <= k < i + 1 implies (#[trigger] after.w[k])
                        == m.difference(start.w[k], m.scaled(g0.w[k], rate)) by {
                        if k < i {
                            assert(after.w[k] == net.w[k]);
                        }
                    }
                    assert forall|k: int| 0 <= k < i + 1 implies (#[trigger] after.b[k])
                        == m.difference(start.b[k], m.scaled(g0.b[k], rate)) by {
                        if k < i {
                            assert(after.b[k] == net.b[k]);
                        }
                    }
                    assert(m.learned(start, g0, after, gafter, rate, i + 1));
                }
            }
            i += 1;
        }
        proof {
            let after = self@;
            let gafter = grad@;
            assert forall|m: Arith<S>| (#[trigger] m.agrees()) implies {
                &&& gafter.w == m.scaled_all(g0.w, rate)
                &&& gafter.b == m.scaled_all(g0.b, rate)
                &&& after.w == m.descended(start.w, g0.w, rate)
                &&& after.b == m.descended(start.b, g0.b, rate)
            } by {
                assert(m.learned(start, g0, after, gafter, rate, layers as int));
                assert(gafter.w =~= m.scaled_all(g0.w, rate));
                assert(gafter.b =~= m.scaled_all(g0.b, rate));
                assert(after.w =~= m.descended(start.w, g0.w, rate));
                assert(after.b =~= m.descended(start.b, g0.b, rate));
            }
        }
    }

    /// Trains the network for `epochs` epochs: in each, the gradient is
    /// estimated as `how` says and one step of gradient descent is taken.
    /// `grad` is where the gradient is worked out.
    pub fn train(
        &mut self,
        grad: &mut NeuralNetwork<S>,
        truth_in: &Matrix<S>,
        truth_out: &Matrix<S>,
        epochs: usize,
        rate: S,
        how: &Estimator<S>,
    )
        requires
            old(self)@.wf(),
            old(grad)@.wf(),
            old(grad)@.same_shape(old(self)@),
            old(self)@.fits(truth_in@, truth_out@),
        ensures
            final(self)@.wf(),
            final(self)@.same_shape(old(self)@),
            final(grad)@.wf(),
            final(grad)@.same_shape(old(grad)@),
            forall|m: Arith<S>| (#[trigger] m.agrees()) ==> final(self)@.params() == m.trained(
                *how,
                old(self)@.params(),
                truth_in@,
                truth_out@,
                rate,
                epochs as nat,
            ),
    {
        let ghost start = self@;
        let ghost g0 = grad@;
        let mut epoch: usize = 0;
        while epoch < epochs
            invariant
                epoch <= epochs,
                start.wf(),
                start.fits(truth_in@, truth_out@),
                self@.wf(),
                self@.same_shape(start),
                grad@.wf(),
                grad@.same_shape(g0),
                g0.same_shape(start),
                forall|m: Arith<S>| (#[trigger] m.agrees()) ==> self@.params() == m.trained(
                    *how,
                    start.params(),
                    truth_in@,
                    truth_out@,
                    rate,
                    epoch as nat,
                ),
            decreases epochs - epoch,
        {
            let ghost net = self@;
            let ghost gi = grad@;
            proof {
                gi.lemma_same_shape_chain(g0, start);
                assert(net.a[0].same_shape(start.a[0]));
                assert(net.a[net.layers() as int].same_shape(start.a[start.layers() as int]));
                assert(gi.same_shape(net)) by {
                    assert forall|k: int| 0 <= k < gi.w.len() implies (#[trigger] gi.w[k]).same_shape(
                        net.w[k],
                    ) by {
                        assert(gi.w[k].same_shape(start.w[k]));
                        assert(net.w[k].same_shape(start.w[k]));
                    }
                    assert forall|k: int| 0 <= k < gi.b.len() implies (#[trigger] gi.b[k]).same_shape(
                        net.b[k],
                    ) by {
                        assert(gi.b[k].same_shape(start.b[k]));
                        assert(net.b[k].same_shape(start.b[k]));
                    }
                    assert forall|k: int| 0 <= k < gi.a.len() implies (#[trigger] gi.a[k]).same_shape(
                        net.a[k],
                    ) by {
                        assert(gi.a[k].same_shape(start.a[k]));
                        assert(net.a[k].same_shape(start.a[k]));
                    }
                }
            }
            match how {
                Estimator::FiniteDiff { step } => {
                    self.finite_diff(grad, truth_in, truth_out, *step);
                },
                Estimator::Backprop => {
                    self.backprop(grad, truth_in, truth_out);
                },
            }
            let ghost mid = self@;
            let ghost gm = grad@;
            proof {
                gm.lemma_same_shape_chain(gi, net);
                gm.lemma_same_shape_chain(net, mid);
                assert(gm.same_shape(mid)) by {
                    assert forall|k: int| 0 <= k < gm.w.len() implies (#[trigger] gm.w[k]).same_shape(
                        mid.w[k],
                    ) by {
                        assert(gm.w[k].same_shape(net.w[k]));
                        assert(mid.w[k].same_shape(net.w[k]));
                    }
                    assert forall|k: int| 0 <= k < gm.b.len() implies (#[trigger] gm.b[k]).same_shape(
                        mid.b[k],
                    ) by {
                        assert(gm.b[k].same_shape(net.b[k]));
                        assert(mid.b[k].same_shape(net.b[k]));
                    }
                    assert forall|k: int| 0 <= k < gm.a.len() implies (#[trigger] gm.a[k]).same_shape(
                        mid.a[k],
                    ) by {
                        assert(gm.a[k].same_shape(net.a[k]));
                        assert(mid.a[k].same_shape(net.a[k]));
                    }
                }
            }
            self.learn(grad, rate);
            proof {
                let after = self@;
                after.lemma_same_shape_chain(mid, net);
                after.lemma_same_shape_chain(net, start);
                grad@.lemma_same_shape_chain(gm, gi);
                grad@.lemma_same_shape_chain(gi, g0);
                assert forall|m: Arith<S>| (#[trigger] m.agrees()) implies after.params()
                    == m.trained(
                    *how,
                    start.params(),
                    truth_in@,
                    truth_out@,
                    rate,
                    (epoch + 1) as nat,
                ) by {
                    let before = m.trained(
                        *how,
                        start.params(),
                        truth_in@,
                        truth_out@,
                        rate,
                        epoch as nat,
                    );
                    assert(net.params() == before);
                    assert(mid.params() == net.params());
                    match *how {
                        Estimator::FiniteDiff { step } => {
                            m.lemma_slopes_held(net, gm, truth_in@, truth_out@, step);
                        },
                        Estimator::Backprop => {
                            m.lemma_gradient_held(net, gm, truth_in@, truth_out@);
                        },
                    }
                    assert(gm.params() == m.estimate(*how, before, truth_in@, truth_out@));
                    assert(after.w == m.descended(mid.w, gm.w, rate));
                    assert(after.b == m.descended(mid.b, gm.b, rate));
                    assert(after.params() == m.epoch(*how, before, truth_in@, truth_out@, rate));
                    assert(after.params() == m.trained(
                        *how,
                        start.params(),
                        truth_in@,
                        truth_out@,
                        rate,
                        (epoch + 1) as nat,
                    ));
                }
            }
            epoch += 1;
        }
    }
}

} // verus!
