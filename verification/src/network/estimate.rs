//! The two gradient estimators: finite differences and backpropagation.

use crate::matrix::{lemma_cell_index, lemma_row_at, lemma_with_cell, Grid, Matrix};
use crate::network::{Net, NeuralNetwork};
use crate::scalar::{Arith, Scalar};
use vstd::prelude::*;

verus! {

impl<S: Scalar> Arith<S> {
    /// The grid `g` with `step` added to cell `k` of its row-by-row order.
    pub open spec fn nudged(self, g: Grid<S>, k: int, step: S) -> Grid<S> {
        Grid { cells: g.cells.update(k, (self.plus)(g.cells[k], step)), ..g }
    }

    /// How much the cost grows, per unit, when `step` is added to cell `k`
    /// of the weights of layer `i`.
    pub open spec fn weight_slope(
        self,
        w: Seq<Grid<S>>,
        b: Seq<Grid<S>>,
        inputs: Grid<S>,
        targets: Grid<S>,
        step: S,
        i: int,
        k: int,
    ) -> S {
        (self.over)(
            (self.minus)(
                self.cost(w.update(i, self.nudged(w[i], k, step)), b, inputs, targets),
                self.cost(w, b, inputs, targets),
            ),
            step,
        )
    }

    /// How much the cost grows, per unit, when `step` is added to cell `k`
    /// of the bias row of layer `i`.
    pub open spec fn bias_slope(
        self,
        w: Seq<Grid<S>>,
        b: Seq<Grid<S>>,
        inputs: Grid<S>,
        targets: Grid<S>,
        step: S,
        i: int,
        k: int,
    ) -> S {
        (self.over)(
            (self.minus)(
                self.cost(w, b.update(i, self.nudged(b[i], k, step)), inputs, targets),
                self.cost(w, b, inputs, targets),
            ),
            step,
        )
    }

    /// The first `n` cells of `g` are the slopes of the cost along the
    /// weights of layer `i`.
    pub open spec fn weight_slopes(
        self,
        g: Grid<S>,
        w: Seq<Grid<S>>,
        b: Seq<Grid<S>>,
        inputs: Grid<S>,
        targets: Grid<S>,
        step: S,
        i: int,
        n: int,
    ) -> bool {
        forall|k: int|
            0 <= k < n ==> (#[trigger] g.cells[k]) == self.weight_slope(
                w,
                b,
                inputs,
                targets,
                step,
                i,
                k,
            )
    }

    /// The first `n` cells of `g` are the slopes of the cost along the
    /// biases of layer `i`.
    pub open spec fn bias_slopes(
        self,
        g: Grid<S>,
        w: Seq<Grid<S>>,
        b: Seq<Grid<S>>,
        inputs: Grid<S>,
        targets: Grid<S>,
        step: S,
        i: int,
        n: int,
    ) -> bool {
        forall|k: int|
            0 <= k < n ==> (#[trigger] g.cells[k]) == self.bias_slope(
                w,
                b,
                inputs,
                targets,
                step,
                i,
                k,
            )
    }

    /// Every weight and every bias of the layers before `upto` of `g` holds
    /// the slope of the cost along the parameter in its place.
    pub open spec fn slopes_held(
        self,
        w: Seq<Grid<S>>,
        b: Seq<Grid<S>>,
        inputs: Grid<S>,
        targets: Grid<S>,
        step: S,
        g: Net<S>,
        upto: int,
    ) -> bool {
        forall|i: int|
            0 <= i < upto ==> {
                &&& self.weight_slopes(
                    #[trigger] g.w[i],
                    w,
                    b,
                    inputs,
                    targets,
                    step,
                    i,
                    w[i].cells.len() as int,
                )
                &&& self.bias_slopes(
                    g.b[i],
                    w,
                    b,
                    inputs,
                    targets,
                    step,
                    i,
                    b[i].cells.len() as int,
                )
            }
    }
}

impl<S: Scalar> Arith<S> {
    /// A unit's gradient, from its error signal and its activation:
    /// `2 * signal * act * (1 - act)`, twice the signal times the derivative
    /// of the logistic function. At the output layer this is the derivative
    /// of the squared error along what goes into the unit.
    pub open spec fn unit_gradient(self, signal: S, act: S) -> S {
        (self.times)(
            (self.times)((self.times)(self.two(), signal), act),
            (self.minus)(self.one(), act),
        )
    }

    /// `acc` and, added to it one after the other, what the first `n` units
    /// of a layer send back to unit `k` of the layer before: each unit's
    /// gradient times the weight that joins the two. `wl` holds the weights
    /// into the layer, `act` its activations and `sig` its error signals.
    pub open spec fn backflow(
        self,
        acc: S,
        wl: Grid<S>,
        act: Grid<S>,
        sig: Grid<S>,
        k: int,
        n: nat,
    ) -> S
        decreases n,
    {
        if n == 0 {
            acc
        } else {
            (self.plus)(
                self.backflow(acc, wl, act, sig, k, (n - 1) as nat),
                (self.times)(self.unit_gradient(sig.at(0, n - 1), act.at(0, n - 1)), wl.at(k, n - 1)),
            )
        }
    }

    /// The error signal of layer `l` for the input row `x` and the target
    /// row `y`: at the output, the output less the target; before it, what
    /// flows back from the layer after.
    pub open spec fn signal(
        self,
        w: Seq<Grid<S>>,
        b: Seq<Grid<S>>,
        x: Grid<S>,
        y: Grid<S>,
        l: nat,
    ) -> Grid<S>
        decreases w.len() - l,
    {
        if l >= w.len() {
            let out = self.output(w, b, x);
            Grid {
                rows: 1,
                columns: out.columns,
                cells: Seq::new(out.columns, |j: int| (self.minus)(out.at(0, j), y.at(0, j))),
            }
        } else {
            let next = self.signal(w, b, x, y, l + 1);
            let act = self.activation(w, b, x, l + 1);
            Grid {
                rows: 1,
                columns: w[l as int].rows,
                cells: Seq::new(
                    w[l as int].rows,
                    |k: int| self.backflow(self.zero(), w[l as int], act, next, k, w[l as int].columns),
                ),
            }
        }
    }

    /// What the sample `(x, y)` adds to the gradient along bias `j` of
    /// layer `i`.
    pub open spec fn bias_share(
        self,
        w: Seq<Grid<S>>,
        b: Seq<Grid<S>>,
        x: Grid<S>,
        y: Grid<S>,
        i: int,
        j: int,
    ) -> S {
        self.unit_gradient(
            self.signal(w, b, x, y, (i + 1) as nat).at(0, j),
            self.activation(w, b, x, (i + 1) as nat).at(0, j),
        )
    }

    /// What the sample `(x, y)` adds to the gradient along the weight in
    /// row `k` and column `j` of layer `i`.
    pub open spec fn weight_share(
        self,
        w: Seq<Grid<S>>,
        b: Seq<Grid<S>>,
        x: Grid<S>,
        y: Grid<S>,
        i: int,
        k: int,
        j: int,
    ) -> S {
        (self.times)(self.bias_share(w, b, x, y, i, j), self.activation(w, b, x, i as nat).at(0, k))
    }

    /// The shares of the first `n` samples along bias `j` of layer `i`,
    /// added up from zero.
    pub open spec fn bias_total(
        self,
        w: Seq<Grid<S>>,
        b: Seq<Grid<S>>,
        inputs: Grid<S>,
        targets: Grid<S>,
        i: int,
        j: int,
        n: nat,
    ) -> S
        decreases n,
    {
        if n == 0 {
            self.zero()
        } else {
            (self.plus)(
                self.bias_total(w, b, inputs, targets, i, j, (n - 1) as nat),
                self.bias_share(w, b, inputs.row(n - 1), targets.row(n - 1), i, j),
            )
        }
    }

    /// The shares of the first `n` samples along the weight in row `k` and
    /// column `j` of layer `i`, added up from zero.
    pub open spec fn weight_total(
        self,
        w: Seq<Grid<S>>,
        b: Seq<Grid<S>>,
        inputs: Grid<S>,
        targets: Grid<S>,
        i: int,
        k: int,
        j: int,
        n: nat,
    ) -> S
        decreases n,
    {
        if n == 0 {
            self.zero()
        } else {
            (self.plus)(
                self.weight_total(w, b, inputs, targets, i, k, j, (n - 1) as nat),
                self.weight_share(w, b, inputs.row(n - 1), targets.row(n - 1), i, k, j),
            )
        }
    }

    /// What backpropagation gives for bias `j` of layer `i`: the mean of the
    /// samples' shares.
    pub open spec fn bias_gradient(
        self,
        w: Seq<Grid<S>>,
        b: Seq<Grid<S>>,
        inputs: Grid<S>,
        targets: Grid<S>,
        i: int,
        j: int,
    ) -> S {
        (self.over)(
            self.bias_total(w, b, inputs, targets, i, j, inputs.rows),
            (self.count)(inputs.rows as usize),
        )
    }

    /// What backpropagation gives for the weight in row `k` and column `j`
    /// of layer `i`: the mean of the samples' shares.
    pub open spec fn weight_gradient(
        self,
        w: Seq<Grid<S>>,
        b: Seq<Grid<S>>,
        inputs: Grid<S>,
        targets: Grid<S>,
        i: int,
        k: int,
        j: int,
    ) -> S {
        (self.over)(
            self.weight_total(w, b, inputs, targets, i, k, j, inputs.rows),
            (self.count)(inputs.rows as usize),
        )
    }
}

impl<S: Scalar> Arith<S> {
    /// `after` is `before` once unit `j` of layer `l` of the network `net`
    /// has added its gradient to its bias, its share to each weight that
    /// leads into it, and its part to the error signal of each unit before.
    pub open spec fn unit_swept(self, net: Net<S>, before: Net<S>, after: Net<S>, l: int, j: int) -> bool {
        let ug = self.unit_gradient(before.a[l].at(0, j), net.a[l].at(0, j));
        &&& after.b[l - 1].at(0, j) == (self.plus)(before.b[l - 1].at(0, j), ug)
        &&& forall|k: int|
            0 <= k < net.width(l - 1) ==> {
                &&& (#[trigger] after.w[l - 1].at(k, j)) == (self.plus)(
                    before.w[l - 1].at(k, j),
                    (self.times)(ug, net.a[l - 1].at(0, k)),
                )
                &&& after.a[l - 1].at(0, k) == (self.plus)(
                    before.a[l - 1].at(0, k),
                    (self.times)(ug, net.w[l - 1].at(k, j)),
                )
            }
    }

    /// A unit has done its part once its bias, the weights into it and the
    /// signals before it have each taken up what is due.
    proof fn lemma_unit_swept(
        self,
        net: Net<S>,
        before: Net<S>,
        after: Net<S>,
        l: int,
        j: int,
        ug: S,
    )
        requires
            ug == self.unit_gradient(before.a[l].at(0, j), net.a[l].at(0, j)),
            after.b[l - 1].at(0, j) == (self.plus)(before.b[l - 1].at(0, j), ug),
            forall|k: int|
                0 <= k < net.width(l - 1) ==> {
                    &&& (#[trigger] after.w[l - 1].at(k, j)) == (self.plus)(
                        before.w[l - 1].at(k, j),
                        (self.times)(ug, net.a[l - 1].at(0, k)),
                    )
                    &&& after.a[l - 1].at(0, k) == (self.plus)(
                        before.a[l - 1].at(0, k),
                        (self.times)(ug, net.w[l - 1].at(k, j)),
                    )
                },
        ensures
            self.unit_swept(net, before, after, l, j),
    {
    }
}

impl<S: Scalar> Arith<S> {
    /// `after` is `before` once the first `n` units of layer `l` of the
    /// network `net` have each done their part of the backward sweep.
    pub open spec fn layer_swept(
        self,
        net: Net<S>,
        before: Net<S>,
        after: Net<S>,
        l: int,
        n: int,
    ) -> bool {
        &&& forall|j: int|
            0 <= j < n ==> (#[trigger] after.b[l - 1].at(0, j)) == (self.plus)(
                before.b[l - 1].at(0, j),
                self.unit_gradient(before.a[l].at(0, j), net.a[l].at(0, j)),
            )
        &&& forall|k: int, j: int|
            0 <= k < net.width(l - 1) && 0 <= j < n ==> (#[trigger] after.w[l - 1].at(k, j)) == (
            self.plus)(
                before.w[l - 1].at(k, j),
                (self.times)(
                    self.unit_gradient(before.a[l].at(0, j), net.a[l].at(0, j)),
                    net.a[l - 1].at(0, k),
                ),
            )
        &&& forall|k: int|
            0 <= k < net.width(l - 1) ==> (#[trigger] after.a[l - 1].at(0, k)) == self.backflow(
                before.a[l - 1].at(0, k),
                net.w[l - 1],
                net.a[l],
                before.a[l],
                k,
                n as nat,
            )
    }
}

impl<S: Scalar> Arith<S> {
    /// `after` is `before` once the backward sweep for the sample `(x, y)`
    /// through a network with the weights `w` and the biases `b` has come
    /// down to layer `from`: the error signals of the layers from `from` on
    /// are in place, those before are zero, and the weights and biases of
    /// the layers from `from` on have taken up the sample's shares.
    pub open spec fn sample_swept(
        self,
        w: Seq<Grid<S>>,
        b: Seq<Grid<S>>,
        x: Grid<S>,
        y: Grid<S>,
        before: Net<S>,
        after: Net<S>,
        from: int,
    ) -> bool {
        &&& forall|l: int|
            from <= l <= w.len() ==> (#[trigger] after.a[l]) == self.signal(w, b, x, y, l as nat)
        &&& forall|l: int|
            0 <= l < from ==> (#[trigger] after.a[l]) == Grid::filled(
                1,
                before.a[l].columns,
                self.zero(),
            )
        &&& forall|i: int, j: int|
            from <= i < w.len() && 0 <= j < w[i].columns ==> (#[trigger] after.b[i].at(0, j)) == (
            self.plus)(before.b[i].at(0, j), self.bias_share(w, b, x, y, i, j))
        &&& forall|i: int, k: int, j: int|
            from <= i < w.len() && 0 <= k < w[i].rows && 0 <= j < w[i].columns ==> (
            #[trigger] after.w[i].at(k, j)) == (self.plus)(
                before.w[i].at(k, j),
                self.weight_share(w, b, x, y, i, k, j),
            )
    }

    /// A row that holds, cell by cell, the output less the target is the
    /// error signal of the output layer.
    proof fn lemma_signal_at_output(
        self,
        w: Seq<Grid<S>>,
        b: Seq<Grid<S>>,
        x: Grid<S>,
        y: Grid<S>,
        out: Grid<S>,
        sig: Grid<S>,
    )
        requires
            out == self.output(w, b, x),
            sig.wf(),
            sig.rows == 1,
            sig.columns == out.columns,
            forall|c: int|
                0 <= c < out.columns ==> (#[trigger] sig.at(0, c)) == (self.minus)(
                    out.at(0, c),
                    y.at(0, c),
                ),
        ensures
            sig == self.signal(w, b, x, y, w.len()),
    {
        let expected = self.signal(w, b, x, y, w.len());
        assert forall|c: int| 0 <= c < sig.cells.len() implies sig.cells[c] == expected.cells[c] by {
            assert(sig.at(0, c) == sig.cells[c]);
        }
        assert(sig.cells =~= expected.cells);
    }

    /// The backward sweep comes down one layer: once the units of layer `l`
    /// have done their part, the sweep that had come down to layer `l` has
    /// come down to layer `l - 1`.
    proof fn lemma_sweep_one_layer(
        self,
        w: Seq<Grid<S>>,
        b: Seq<Grid<S>>,
        x: Grid<S>,
        y: Grid<S>,
        net: Net<S>,
        before: Net<S>,
        mid: Net<S>,
        after: Net<S>,
        l: int,
    )
        requires
            net.wf(),
            net.w == w,
            net.b == b,
            1 <= l <= w.len(),
            forall|i: nat| i <= w.len() ==> net.a[i as int] == self.activation(w, b, x, i),
            before.wf(),
            before.same_shape(net),
            mid.same_shape(before),
            after.wf(),
            after.same_shape(mid),
            self.sample_swept(w, b, x, y, before, mid, l),
            self.layer_swept(net, mid, after, l, net.width(l) as int),
            forall|i: int| 0 <= i < w.len() && i != l - 1 ==> (#[trigger] after.w[i]) == mid.w[i],
            forall|i: int| 0 <= i < w.len() && i != l - 1 ==> (#[trigger] after.b[i]) == mid.b[i],
            forall|i: int| 0 <= i <= w.len() && i != l - 1 ==> (#[trigger] after.a[i]) == mid.a[i],
            mid.w[l - 1] == before.w[l - 1],
            mid.b[l - 1] == before.b[l - 1],
        ensures
            self.sample_swept(w, b, x, y, before, after, l - 1),
    {
        assert(net.w[l - 1].wf() && net.a[l - 1].wf() && net.a[l].wf() && net.b[l - 1].wf());
        assert(net.a[l] == self.activation(w, b, x, l as nat));
        assert(net.a[l - 1] == self.activation(w, b, x, (l - 1) as nat));
        assert(mid.a[l] == self.signal(w, b, x, y, l as nat));
        assert(mid.a[l - 1] == Grid::filled(1, before.a[l - 1].columns, self.zero()));
        assert(before.a[l - 1].same_shape(net.a[l - 1]));
        assert(after.a[l - 1].same_shape(mid.a[l - 1]));
        assert(mid.a[l - 1].same_shape(before.a[l - 1]));
        assert(after.a[l - 1].wf());
        let expected = self.signal(w, b, x, y, (l - 1) as nat);
        assert forall|k: int| 0 <= k < after.a[l - 1].cells.len() implies after.a[l - 1].cells[k]
            == expected.cells[k] by {
            assert(after.a[l - 1].at(0, k) == after.a[l - 1].cells[k]);
            assert(mid.a[l - 1].at(0, k) == self.zero());
        }
        assert(after.a[l - 1].cells =~= expected.cells);
        assert(after.a[l - 1] == expected);
        assert forall|i: int| l - 1 <= i <= w.len() implies (#[trigger] after.a[i]) == self.signal(
            w,
            b,
            x,
            y,
            i as nat,
        ) by {
            if i != l - 1 {
                assert(after.a[i] == mid.a[i]);
            }
        }
        assert forall|i: int| 0 <= i < l - 1 implies (#[trigger] after.a[i]) == Grid::filled(
            1,
            before.a[i].columns,
            self.zero(),
        ) by {
            assert(after.a[i] == mid.a[i]);
        }
        assert forall|i: int, j: int| l - 1 <= i < w.len() && 0 <= j < w[i].columns implies (
        #[trigger] after.b[i].at(0, j)) == (self.plus)(
            before.b[i].at(0, j),
            self.bias_share(w, b, x, y, i, j),
        ) by {
            if i != l - 1 {
                assert(after.b[i] == mid.b[i]);
                assert(mid.b[i].at(0, j) == (self.plus)(
                    before.b[i].at(0, j),
                    self.bias_share(w, b, x, y, i, j),
                ));
            } else {
                assert(after.b[l - 1].at(0, j) == (self.plus)(
                    mid.b[l - 1].at(0, j),
                    self.unit_gradient(mid.a[l].at(0, j), net.a[l].at(0, j)),
                ));
            }
        }
        assert forall|i: int, k: int, j: int|
            l - 1 <= i < w.len() && 0 <= k < w[i].rows && 0 <= j < w[i].columns implies (
        #[trigger] after.w[i].at(k, j)) == (self.plus)(
            before.w[i].at(k, j),
            self.weight_share(w, b, x, y, i, k, j),
        ) by {
            if i != l - 1 {
                assert(after.w[i] == mid.w[i]);
                assert(mid.w[i].at(k, j) == (self.plus)(
                    before.w[i].at(k, j),
                    self.weight_share(w, b, x, y, i, k, j),
                ));
            } else {
                assert(after.w[l - 1].at(k, j) == (self.plus)(
                    mid.w[l - 1].at(k, j),
                    (self.times)(
                        self.unit_gradient(mid.a[l].at(0, j), net.a[l].at(0, j)),
                        net.a[l - 1].at(0, k),
                    ),
                ));
            }
        }
        assert(self.sample_swept(w, b, x, y, before, after, l - 1));
    }
}

impl<S: Scalar> Arith<S> {
    /// Every weight and every bias of `g` holds the shares of the first `n`
    /// samples, added up.
    pub open spec fn totals_held(
        self,
        w: Seq<Grid<S>>,
        b: Seq<Grid<S>>,
        inputs: Grid<S>,
        targets: Grid<S>,
        g: Net<S>,
        n: nat,
    ) -> bool {
        &&& forall|i: int, j: int|
            0 <= i < w.len() && 0 <= j < w[i].columns ==> (#[trigger] g.b[i].at(0, j))
                == self.bias_total(w, b, inputs, targets, i, j, n)
        &&& forall|i: int, k: int, j: int|
            0 <= i < w.len() && 0 <= k < w[i].rows && 0 <= j < w[i].columns ==> (
            #[trigger] g.w[i].at(k, j)) == self.weight_total(w, b, inputs, targets, i, k, j, n)
    }

    /// Every weight and every bias of the layers before `upto` of `g` holds
    /// what backpropagation gives for the parameter in its place.
    pub open spec fn gradient_held(
        self,
        w: Seq<Grid<S>>,
        b: Seq<Grid<S>>,
        inputs: Grid<S>,
        targets: Grid<S>,
        g: Net<S>,
        upto: int,
    ) -> bool {
        &&& forall|i: int, j: int|
            0 <= i < upto && 0 <= j < w[i].columns ==> (#[trigger] g.b[i].at(0, j))
                == self.bias_gradient(w, b, inputs, targets, i, j)
        &&& forall|i: int, k: int, j: int|
            0 <= i < upto && 0 <= k < w[i].rows && 0 <= j < w[i].columns ==> (
            #[trigger] g.w[i].at(k, j)) == self.weight_gradient(w, b, inputs, targets, i, k, j)
    }
}

/// Divides every cell of `cells` by `n`.
fn divide_cells<S: Scalar>(cells: &mut Matrix<S>, n: usize)
    requires
        old(cells)@.wf(),
    ensures
        final(cells)@.wf(),
        final(cells)@.same_shape(old(cells)@),
        forall|m: Arith<S>| (#[trigger] m.agrees()) ==> forall|k: int|
            0 <= k < old(cells)@.cells.len() ==> (#[trigger] final(cells)@.cells[k]) == (m.over)(
                old(cells)@.cells[k],
                (m.count)(n),
            ),
{
    let len: usize = cells.data.len();
    let mut i: usize = 0;
    while i < len
        invariant
            i <= len,
            len == cells.data.len(),
            len == old(cells).data.len(),
            cells.rows == old(cells).rows,
            cells.columns == old(cells).columns,
            forall|k: int| i <= k < len ==> cells.data@[k] == old(cells).data@[k],
            forall|m: Arith<S>| (#[trigger] m.agrees()) ==> forall|k: int|
                0 <= k < i ==> (#[trigger] cells.data@[k]) == (m.over)(
                    old(cells).data@[k],
                    (m.count)(n),
                ),
        decreases len - i,
    {
        let v = cells.data[i].over(S::from_count(n));
        cells.data[i] = v;
        i += 1;
    }
}

impl<S: Scalar> NeuralNetwork<S> {
    /// The slope of the cost along one weight: the weight is raised by
    /// `step`, the cost taken, and the weight put back.
    fn weight_slope_at(
        &mut self,
        truth_in: &Matrix<S>,
        truth_out: &Matrix<S>,
        layer: usize,
        row: usize,
        col: usize,
        cost_start: S,
        step: S,
    ) -> (r: S)
        requires
            old(self)@.wf(),
            old(self)@.fits(truth_in@, truth_out@),
            layer < old(self)@.layers(),
            row < old(self)@.w[layer as int].rows,
            col < old(self)@.w[layer as int].columns,
        ensures
            final(self)@.wf(),
            final(self)@.same_shape(old(self)@),
            final(self)@.w == old(self)@.w,
            final(self)@.b == old(self)@.b,
            forall|m: Arith<S>| (#[trigger] m.agrees()) && cost_start == m.cost(
                    old(self)@.w,
                    old(self)@.b,
                    truth_in@,
                    truth_out@,
                ) ==> r == m.weight_slope(
                    old(self)@.w,
                    old(self)@.b,
                    truth_in@,
                    truth_out@,
                    step,
                    layer as int,
                    row * old(self)@.w[layer as int].columns + col,
                ),
    {
        let ghost before = self@;
        proof {
            assert(before.w[layer as int].wf());
            assert(before.a[0].wf() && before.a[before.layers() as int].wf());
            lemma_cell_index(
                before.w[layer as int].rows as int,
                before.w[layer as int].columns as int,
                row as int,
                col as int,
            );
        }
        let saved = self.weight(layer, row, col);
        let raised_to = saved.plus(step);
        self.set_weight(layer, row, col, raised_to);
        let ghost raised = self@;
        assert(raised.a[0].same_shape(before.a[0]) && raised.a[before.layers() as int].same_shape(
            before.a[before.layers() as int],
        ));
        let cost_new = self.cost(truth_in, truth_out);
        let slope = cost_new.minus(cost_start).over(step);
        let ghost costed = self@;
        assert(costed.w[layer as int].same_shape(raised.w[layer as int]));
        self.set_weight(layer, row, col, saved);
        proof {
            let after = self@;
            assert(after.w[layer as int].cells =~= before.w[layer as int].cells);
            assert(after.w =~= before.w);
            after.lemma_same_shape_chain(costed, raised);
            after.lemma_same_shape_chain(raised, before);
            assert forall|m: Arith<S>| (#[trigger] m.agrees()) implies raised.w == before.w.update(
                layer as int,
                m.nudged(
                    before.w[layer as int],
                    row * before.w[layer as int].columns + col,
                    step,
                ),
            ) by {
                assert(raised.w[layer as int] == m.nudged(
                    before.w[layer as int],
                    row * before.w[layer as int].columns + col,
                    step,
                ));
            }
        }
        slope
    }

    /// The slope of the cost along one bias: the bias is raised by `step`,
    /// the cost taken, and the bias put back.
    fn bias_slope_at(
        &mut self,
        truth_in: &Matrix<S>,
        truth_out: &Matrix<S>,
        layer: usize,
        col: usize,
        cost_start: S,
        step: S,
    ) -> (r: S)
        requires
            old(self)@.wf(),
            old(self)@.fits(truth_in@, truth_out@),
            layer < old(self)@.layers(),
            col < old(self)@.b[layer as int].columns,
        ensures
            final(self)@.wf(),
            final(self)@.same_shape(old(self)@),
            final(self)@.w == old(self)@.w,
            final(self)@.b == old(self)@.b,
            forall|m: Arith<S>| (#[trigger] m.agrees()) && cost_start == m.cost(
                    old(self)@.w,
                    old(self)@.b,
                    truth_in@,
                    truth_out@,
                ) ==> r == m.bias_slope(
                    old(self)@.w,
                    old(self)@.b,
                    truth_in@,
                    truth_out@,
                    step,
                    layer as int,
                    col as int,
                ),
    {
        let ghost before = self@;
        proof {
            assert(before.b[layer as int].wf());
            assert(before.a[0].wf() && before.a[before.layers() as int].wf());
            lemma_cell_index(1, before.b[layer as int].columns as int, 0, col as int);
        }
        let saved = self.bias(layer, col);
        let raised_to = saved.plus(step);
        self.set_bias(layer, col, raised_to);
        let ghost raised = self@;
        assert(raised.a[0].same_shape(before.a[0]) && raised.a[before.layers() as int].same_shape(
            before.a[before.layers() as int],
        ));
        let cost_new = self.cost(truth_in, truth_out);
        let slope = cost_new.minus(cost_start).over(step);
        let ghost costed = self@;
        assert(costed.b[layer as int].same_shape(raised.b[layer as int]));
        self.set_bias(layer, col, saved);
        proof {
            let after = self@;
            assert(after.b[layer as int].cells =~= before.b[layer as int].cells);
            assert(after.b =~= before.b);
            after.lemma_same_shape_chain(costed, raised);
            after.lemma_same_shape_chain(raised, before);
            assert forall|m: Arith<S>| (#[trigger] m.agrees()) implies raised.b == before.b.update(
                layer as int,
                m.nudged(before.b[layer as int], col as int, step),
            ) by {
                assert(raised.b[layer as int] == m.nudged(before.b[layer as int], col as int, step));
            }
        }
        slope
    }

    /// Estimates the gradient of the cost by finite differences and writes
    /// it into the weights and biases of `grad`.
    ///
    /// Each parameter in turn (layer by layer, the weights of a layer row by
    /// row before its biases) is raised by `step`, the cost is taken, and
    /// the parameter is put back. On return every weight and every bias of
    /// this network is what it was.
    pub fn finite_diff(
        &mut self,
        grad: &mut NeuralNetwork<S>,
        truth_in: &Matrix<S>,
        truth_out: &Matrix<S>,
        step: S,
    )
        requires
            old(self)@.wf(),
            old(grad)@.wf(),
            old(grad)@.same_shape(old(self)@),
            old(self)@.fits(truth_in@, truth_out@),
        ensures
            final(self)@.wf(),
            final(self)@.same_shape(old(self)@),
            final(self)@.w == old(self)@.w,
            final(self)@.b == old(self)@.b,
            final(grad)@.wf(),
            final(grad)@.same_shape(old(grad)@),
            final(grad)@.a == old(grad)@.a,
            forall|m: Arith<S>| (#[trigger] m.agrees()) ==> m.slopes_held(
                old(self)@.w,
                old(self)@.b,
                truth_in@,
                truth_out@,
                step,
                final(grad)@,
                old(self)@.layers() as int,
            ),
    {
        let ghost start = self@;
        let ghost gstart = grad@;
        assert(start.a[0].wf() && start.a[start.layers() as int].wf());
        let cost_start = self.cost(truth_in, truth_out);
        assert(self@.a[0].same_shape(start.a[0]) && self@.a[start.layers() as int].same_shape(
            start.a[start.layers() as int],
        ));
        let layers = self.layers();
        let mut layer: usize = 0;
        while layer < layers
            invariant
                layer <= layers,
                layers == start.layers(),
                start.wf(),
                start.fits(truth_in@, truth_out@),
                gstart.wf(),
                gstart.same_shape(start),
                self@.wf(),
                self@.same_shape(start),
                self@.fits(truth_in@, truth_out@),
                self@.w == start.w,
                self@.b == start.b,
                grad@.wf(),
                grad@.same_shape(gstart),
                grad@.a == gstart.a,
                forall|m: Arith<S>| (#[trigger] m.agrees()) ==> cost_start == m.cost(start.w, start.b, truth_in@, truth_out@),
                forall|m: Arith<S>| (#[trigger] m.agrees()) ==> m.slopes_held(
                    start.w,
                    start.b,
                    truth_in@,
                    truth_out@,
                    step,
                    grad@,
                    layer as int,
                ),
            decreases layers - layer,
        {
            let ghost gbefore = grad@;
            proof {
                gbefore.lemma_same_shape_chain(gstart, start);
            }
            assert(start.w[layer as int].wf() && start.b[layer as int].wf());
            assert(gstart.w[layer as int].same_shape(start.w[layer as int]));
            assert(gstart.b[layer as int].same_shape(start.b[layer as int]));
            assert(gbefore.w[layer as int].same_shape(gstart.w[layer as int]));
            assert(gbefore.b[layer as int].same_shape(gstart.b[layer as int]));
            let rows = self.w[layer].rows;
            let columns = self.w[layer].columns;
            let mut row: usize = 0;
            while row < rows
                invariant
                    row <= rows,
                    layer < layers,
                    layers == start.layers(),
                    rows == start.w[layer as int].rows,
                    columns == start.w[layer as int].columns,
                    start.wf(),
                    start.fits(truth_in@, truth_out@),
                    start.w[layer as int].wf(),
                    self@.wf(),
                    self@.same_shape(start),
                    self@.fits(truth_in@, truth_out@),
                    self@.w == start.w,
                    self@.b == start.b,
                    grad@.wf(),
                    grad@.same_shape(gbefore),
                    gbefore.same_shape(start),
                    grad@.a == gbefore.a,
                    grad@.b == gbefore.b,
                    forall|i: int| 0 <= i < layers && i != layer ==> grad@.w[i] == gbefore.w[i],
                    forall|m: Arith<S>| (#[trigger] m.agrees()) ==> cost_start == m.cost(
                            start.w,
                            start.b,
                            truth_in@,
                            truth_out@,
                        ),
                    forall|m: Arith<S>| (#[trigger] m.agrees()) ==> m.weight_slopes(
                            grad@.w[layer as int],
                            start.w,
                            start.b,
                            truth_in@,
                            truth_out@,
                            step,
                            layer as int,
                            row * columns,
                        ),
                decreases rows - row,
            {
                let mut col: usize = 0;
                while col < columns
                    invariant
                        col <= columns,
                        row < rows,
                        layer < layers,
                        layers == start.layers(),
                        rows == start.w[layer as int].rows,
                        columns == start.w[layer as int].columns,
                        start.wf(),
                        start.fits(truth_in@, truth_out@),
                        start.w[layer as int].wf(),
                        self@.wf(),
                        self@.same_shape(start),
                        self@.fits(truth_in@, truth_out@),
                        self@.w == start.w,
                        self@.b == start.b,
                        grad@.wf(),
                        grad@.same_shape(gbefore),
                        gbefore.same_shape(start),
                        grad@.a == gbefore.a,
                        grad@.b == gbefore.b,
                        forall|i: int| 0 <= i < layers && i != layer ==> grad@.w[i] == gbefore.w[i],
                        forall|m: Arith<S>| (#[trigger] m.agrees()) ==> cost_start == m.cost(
                                start.w,
                                start.b,
                                truth_in@,
                                truth_out@,
                            ),
                        forall|m: Arith<S>| (#[trigger] m.agrees()) ==> m.weight_slopes(
                                grad@.w[layer as int],
                                start.w,
                                start.b,
                                truth_in@,
                                truth_out@,
                                step,
                                layer as int,
                                row * columns + col,
                            ),
                    decreases columns - col,
                {
                    let ghost ginner = grad@;
                    proof {
                        lemma_cell_index(rows as int, columns as int, row as int, col as int);
                        assert(ginner.w[layer as int].same_shape(gbefore.w[layer as int]));
                        assert(gbefore.w[layer as int].same_shape(start.w[layer as int]));
                    }
                    let slope = self.weight_slope_at(
                        truth_in,
                        truth_out,
                        layer,
                        row,
                        col,
                        cost_start,
                        step,
                    );
                    grad.set_weight(layer, row, col, slope);
                    proof {
                        grad@.lemma_same_shape_chain(ginner, gbefore);
                        assert forall|m: Arith<S>| (#[trigger] m.agrees()) implies m.weight_slopes(
                            grad@.w[layer as int],
                            start.w,
                            start.b,
                            truth_in@,
                            truth_out@,
                            step,
                            layer as int,
                            row * columns + col + 1,
                        ) by {
                            assert(m.weight_slopes(
                                ginner.w[layer as int],
                                start.w,
                                start.b,
                                truth_in@,
                                truth_out@,
                                step,
                                layer as int,
                                row * columns + col,
                            ));
                        }
                    }
                    col += 1;
                }
                assert(row * columns + columns == (row + 1) * columns) by (nonlinear_arith);
                row += 1;
            }
            let ghost gmid = grad@;
            proof {
                gmid.lemma_same_shape_chain(gbefore, start);
            }
            let bias_columns = self.b[layer].columns;
            let mut col: usize = 0;
            while col < bias_columns
                invariant
                    col <= bias_columns,
                    layer < layers,
                    layers == start.layers(),
                    bias_columns == start.b[layer as int].columns,
                    start.wf(),
                    start.fits(truth_in@, truth_out@),
                    start.b[layer as int].wf(),
                    self@.wf(),
                    self@.same_shape(start),
                    self@.fits(truth_in@, truth_out@),
                    self@.w == start.w,
                    self@.b == start.b,
                    grad@.wf(),
                    grad@.same_shape(gmid),
                    gmid.same_shape(start),
                    grad@.a == gmid.a,
                    grad@.w == gmid.w,
                    forall|i: int| 0 <= i < layers && i != layer ==> grad@.b[i] == gmid.b[i],
                    forall|m: Arith<S>| (#[trigger] m.agrees()) ==> cost_start == m.cost(
                            start.w,
                            start.b,
                            truth_in@,
                            truth_out@,
                        ),
                    forall|m: Arith<S>| (#[trigger] m.agrees()) ==> m.bias_slopes(
                            grad@.b[layer as int],
                            start.w,
                            start.b,
                            truth_in@,
                            truth_out@,
                            step,
                            layer as int,
                            col as int,
                        ),
                decreases bias_columns - col,
            {
                let ghost ginner = grad@;
                proof {
                    lemma_cell_index(1, bias_columns as int, 0, col as int);
                    assert(ginner.b[layer as int].same_shape(gmid.b[layer as int]));
                    assert(gmid.b[layer as int].same_shape(start.b[layer as int]));
                }
                let slope = self.bias_slope_at(truth_in, truth_out, layer, col, cost_start, step);
                grad.set_bias(layer, col, slope);
                proof {
                    grad@.lemma_same_shape_chain(ginner, gmid);
                    assert forall|m: Arith<S>| (#[trigger] m.agrees()) implies m.bias_slopes(
                        grad@.b[layer as int],
                        start.w,
                        start.b,
                        truth_in@,
                        truth_out@,
                        step,
                        layer as int,
                        col + 1,
                    ) by {
                        assert(m.bias_slopes(
                            ginner.b[layer as int],
                            start.w,
                            start.b,
                            truth_in@,
                            truth_out@,
                            step,
                            layer as int,
                            col as int,
                        ));
                    }
                }
                col += 1;
            }
            proof {
                grad@.lemma_same_shape_chain(gmid, gbefore);
                grad@.lemma_same_shape_chain(gbefore, gstart);
                let after = grad@;
                assert forall|m: Arith<S>| (#[trigger] m.agrees()) implies m.slopes_held(
                    start.w,
                    start.b,
                    truth_in@,
                    truth_out@,
                    step,
                    after,
                    layer + 1,
                ) by {
                    assert(m.slopes_held(
                        start.w,
                        start.b,
                        truth_in@,
                        truth_out@,
                        step,
                        gbefore,
                        layer as int,
                    ));
                    assert forall|i: int| 0 <= i < layer + 1 implies {
                        &&& m.weight_slopes(
                            #[trigger] after.w[i],
                            start.w,
                            start.b,
                            truth_in@,
                            truth_out@,
                            step,
                            i,
                            start.w[i].cells.len() as int,
                        )
                        &&& m.bias_slopes(
                            after.b[i],
                            start.w,
                            start.b,
                            truth_in@,
                            truth_out@,
                            step,
                            i,
                            start.b[i].cells.len() as int,
                        )
                    } by {
                        if i < layer {
                            assert(after.w[i] == gbefore.w[i]);
                            assert(after.b[i] == gbefore.b[i]);
                            assert(m.weight_slopes(
                                gbefore.w[i],
                                start.w,
                                start.b,
                                truth_in@,
                                truth_out@,
                                step,
                                i,
                                start.w[i].cells.len() as int,
                            ));
                            assert(m.bias_slopes(
                                gbefore.b[i],
                                start.w,
                                start.b,
                                truth_in@,
                                truth_out@,
                                step,
                                i,
                                start.b[i].cells.len() as int,
                            ));
                        } else {
                            assert(after.w[i] == gmid.w[i]);
                            assert(m.weight_slopes(
                                gmid.w[i],
                                start.w,
                                start.b,
                                truth_in@,
                                truth_out@,
                                step,
                                i,
                                rows * columns,
                            ));
                            assert(start.w[i].cells.len() == rows * columns);
                            assert(m.bias_slopes(
                                after.b[i],
                                start.w,
                                start.b,
                                truth_in@,
                                truth_out@,
                                step,
                                i,
                                bias_columns as int,
                            ));
                            assert(start.b[i].cells.len() == bias_columns);
                        }
                    }
                    assert(m.slopes_held(
                        start.w,
                        start.b,
                        truth_in@,
                        truth_out@,
                        step,
                        after,
                        layer + 1,
                    ));
                }
            }
            layer += 1;
        }
    }

    /// One unit's part of the backward sweep: unit `j` of layer `l` adds its
    /// gradient to its bias, its gradient times each activation of the layer
    /// before to the weight that joins the two, and its gradient times that
    /// weight to the error signal of the unit before.
    fn backprop_unit(&self, g: &mut NeuralNetwork<S>, l: usize, j: usize)
        requires
            self@.wf(),
            old(g)@.wf(),
            old(g)@.same_shape(self@),
            1 <= l <= self@.layers(),
            j < self@.width(l as int),
        ensures
            final(g)@.wf(),
            final(g)@.same_shape(old(g)@),
            forall|i: int|
                0 <= i < self@.layers() && i != l - 1 ==> (#[trigger] final(g)@.w[i]) == old(g)@.w[i],
            forall|i: int|
                0 <= i < self@.layers() && i != l - 1 ==> (#[trigger] final(g)@.b[i]) == old(g)@.b[i],
            forall|i: int|
                0 <= i <= self@.layers() && i != l - 1 ==> (#[trigger] final(g)@.a[i]) == old(g)@.a[i],
            forall|k: int, c: int|
                0 <= k < self@.width(l - 1) && 0 <= c < self@.width(l as int) && c != j
                    ==> (#[trigger] final(g)@.w[l - 1].at(k, c)) == old(g)@.w[l - 1].at(k, c),
            forall|c: int|
                0 <= c < self@.width(l as int) && c != j ==> (#[trigger] final(g)@.b[l - 1].at(0, c))
                    == old(g)@.b[l - 1].at(0, c),
            forall|m: Arith<S>| (#[trigger] m.agrees()) ==> m.unit_swept(self@, old(g)@, final(g)@, l as int, j as int),
    {
        let ghost net = self@;
        let ghost g0 = g@;
        proof {
            assert(net.a[l as int].wf() && net.a[l - 1].wf());
            assert(net.w[l - 1].wf() && net.b[l - 1].wf());
            assert(g0.a[l as int].same_shape(net.a[l as int]));
            assert(g0.a[l - 1].same_shape(net.a[l - 1]));
            assert(g0.w[l - 1].same_shape(net.w[l - 1]));
            assert(g0.b[l - 1].same_shape(net.b[l - 1]));
            assert(g0.a[l as int].wf() && g0.a[l - 1].wf() && g0.w[l - 1].wf() && g0.b[l - 1].wf());
        }
        let a = self.activation(l, j);
        let da = g.activation(l, j);
        let lg = S::from_count(2).times(da).times(a).times(S::from_count(1).minus(a));
        let nb = g.bias(l - 1, j).plus(lg);
        g.set_bias(l - 1, j, nb);
        let ghost g1 = g@;
        proof {
            assert forall|c: int| 0 <= c < net.width(l as int) implies (#[trigger] g1.b[l - 1].at(0, c))
                == if c == j {
                nb
            } else {
                g0.b[l - 1].at(0, c)
            } by {
                lemma_with_cell(g0.b[l - 1], 0, j as int, nb, 0, c);
            }
        }
        let n = self.width(l - 1);
        let mut k: usize = 0;
        while k < n
            invariant
                k <= n,
                n == net.width(l - 1),
                net == self@,
                net.wf(),
                1 <= l <= net.layers(),
                j < net.width(l as int),
                g0.wf(),
                g0.same_shape(net),
                g@.wf(),
                g@.same_shape(g0),
                g@.b == g1.b,
                forall|i: int| 0 <= i < net.layers() && i != l - 1 ==> (#[trigger] g@.w[i]) == g0.w[i],
                forall|i: int| 0 <= i <= net.layers() && i != l - 1 ==> (#[trigger] g@.a[i]) == g0.a[i],
                forall|r: int, c: int|
                    0 <= r < n && 0 <= c < net.width(l as int) && (c != j || r >= k)
                        ==> (#[trigger] g@.w[l - 1].at(r, c)) == g0.w[l - 1].at(r, c),
                forall|r: int| k <= r < n ==> (#[trigger] g@.a[l - 1].at(0, r)) == g0.a[l - 1].at(0, r),
                forall|m: Arith<S>| (#[trigger] m.agrees()) ==> lg == m.unit_gradient(
                        g0.a[l as int].at(0, j as int),
                        net.a[l as int].at(0, j as int),
                    ),
                forall|m: Arith<S>| (#[trigger] m.agrees()) ==> forall|r: int|
                        0 <= r < k ==> {
                            &&& (#[trigger] g@.w[l - 1].at(r, j as int)) == (m.plus)(
                                g0.w[l - 1].at(r, j as int),
                                (m.times)(lg, net.a[l - 1].at(0, r)),
                            )
                            &&& g@.a[l - 1].at(0, r) == (m.plus)(
                                g0.a[l - 1].at(0, r),
                                (m.times)(lg, net.w[l - 1].at(r, j as int)),
                            )
                        },
            decreases n - k,
        {
            let ghost gk = g@;
            proof {
                assert(net.a[l - 1].wf() && net.w[l - 1].wf());
                assert(gk.w[l - 1].same_shape(g0.w[l - 1]) && g0.w[l - 1].same_shape(net.w[l - 1]));
                assert(gk.a[l - 1].same_shape(g0.a[l - 1]) && g0.a[l - 1].same_shape(net.a[l - 1]));
                assert(gk.w[l - 1].wf() && gk.a[l - 1].wf());
            }
            let pa = self.activation(l - 1, k);
            let w = self.weight(l - 1, k, j);
            let naw = g.weight(l - 1, k, j).plus(lg.times(pa));
            g.set_weight(l - 1, k, j, naw);
            let ghost gw = g@;
            let na = g.activation(l - 1, k).plus(lg.times(w));
            g.set_activation(l - 1, k, na);
            proof {
                let after = g@;
                after.lemma_same_shape_chain(gw, gk);
                after.lemma_same_shape_chain(gk, g0);
                assert forall|r: int, c: int|
                    0 <= r < n && 0 <= c < net.width(l as int) implies (#[trigger] after.w[l - 1].at(
                    r,
                    c,
                )) == if r == k && c == j {
                    naw
                } else {
                    gk.w[l - 1].at(r, c)
                } by {
                    lemma_with_cell(gk.w[l - 1], k as int, j as int, naw, r, c);
                }
                assert forall|r: int| 0 <= r < n implies (#[trigger] after.a[l - 1].at(0, r)) == if r
                    == k {
                    na
                } else {
                    gk.a[l - 1].at(0, r)
                } by {
                    lemma_with_cell(gk.a[l - 1], 0, k as int, na, 0, r);
                }
                assert forall|i: int| 0 <= i < net.layers() && i != l - 1 implies (#[trigger] after.w[i])
                    == g0.w[i] by {
                    assert(gk.w[i] == g0.w[i]);
                }
                assert forall|i: int| 0 <= i <= net.layers() && i != l - 1 implies (#[trigger] after.a[i])
                    == g0.a[i] by {
                    assert(gk.a[i] == g0.a[i]);
                }
            }
            k += 1;
        }
        proof {
            let after = g@;
            assert forall|i: int| 0 <= i < net.layers() && i != l - 1 implies (#[trigger] after.b[i])
                == g0.b[i] by {
                assert(g1.b[i] == g0.b[i]);
            }
            assert forall|m: Arith<S>| (#[trigger] m.agrees()) implies m.unit_swept(
                net,
                g0,
                after,
                l as int,
                j as int,
            ) by {
                let ug = m.unit_gradient(g0.a[l as int].at(0, j as int), net.a[l as int].at(0, j as int));
                assert(lg == ug);
                assert(after.b[l - 1] == g1.b[l - 1]);
                assert(g1.b[l - 1].at(0, j as int) == nb);
                assert(after.b[l - 1].at(0, j as int) == (m.plus)(g0.b[l - 1].at(0, j as int), ug));
                assert forall|r: int| 0 <= r < net.width(l - 1) implies {
                    &&& (#[trigger] after.w[l - 1].at(r, j as int)) == (m.plus)(
                        g0.w[l - 1].at(r, j as int),
                        (m.times)(ug, net.a[l - 1].at(0, r)),
                    )
                    &&& after.a[l - 1].at(0, r) == (m.plus)(
                        g0.a[l - 1].at(0, r),
                        (m.times)(ug, net.w[l - 1].at(r, j as int)),
                    )
                } by {}
                m.lemma_unit_swept(net, g0, after, l as int, j as int, lg);
            }
        }
    }

    /// One layer's part of the backward sweep: the units of layer `l`, one
    /// after the other.
    fn backprop_layer(&self, g: &mut NeuralNetwork<S>, l: usize)
        requires
            self@.wf(),
            old(g)@.wf(),
            old(g)@.same_shape(self@),
            1 <= l <= self@.layers(),
        ensures
            final(g)@.wf(),
            final(g)@.same_shape(old(g)@),
            forall|i: int|
                0 <= i < self@.layers() && i != l - 1 ==> (#[trigger] final(g)@.w[i]) == old(g)@.w[i],
            forall|i: int|
                0 <= i < self@.layers() && i != l - 1 ==> (#[trigger] final(g)@.b[i]) == old(g)@.b[i],
            forall|i: int|
                0 <= i <= self@.layers() && i != l - 1 ==> (#[trigger] final(g)@.a[i]) == old(g)@.a[i],
            forall|m: Arith<S>| (#[trigger] m.agrees()) ==> m.layer_swept(
                self@,
                old(g)@,
                final(g)@,
                l as int,
                self@.width(l as int) as int,
            ),
    {
        let ghost net = self@;
        let ghost g0 = g@;
        let n = self.width(l);
        let mut j: usize = 0;
        while j < n
            invariant
                j <= n,
                n == net.width(l as int),
                net == self@,
                net.wf(),
                1 <= l <= net.layers(),
                g0.wf(),
                g0.same_shape(net),
                g@.wf(),
                g@.same_shape(g0),
                forall|i: int| 0 <= i < net.layers() && i != l - 1 ==> (#[trigger] g@.w[i]) == g0.w[i],
                forall|i: int| 0 <= i < net.layers() && i != l - 1 ==> (#[trigger] g@.b[i]) == g0.b[i],
                forall|i: int| 0 <= i <= net.layers() && i != l - 1 ==> (#[trigger] g@.a[i]) == g0.a[i],
                forall|k: int, c: int|
                    0 <= k < net.width(l - 1) && j <= c < n ==> (#[trigger] g@.w[l - 1].at(k, c))
                        == g0.w[l - 1].at(k, c),
                forall|c: int| j <= c < n ==> (#[trigger] g@.b[l - 1].at(0, c)) == g0.b[l - 1].at(0, c),
                forall|m: Arith<S>| (#[trigger] m.agrees()) ==> m.layer_swept(
                    net,
                    g0,
                    g@,
                    l as int,
                    j as int,
                ),
            decreases n - j,
        {
            let ghost gj = g@;
            proof {
                gj.lemma_same_shape_chain(g0, net);
            }
            self.backprop_unit(g, l, j);
            proof {
                let after = g@;
                after.lemma_same_shape_chain(gj, g0);
                assert(gj.a[l as int] == g0.a[l as int]);
                assert forall|i: int| 0 <= i < net.layers() && i != l - 1 implies (#[trigger] after.w[i])
                    == g0.w[i] by {
                    assert(gj.w[i] == g0.w[i]);
                }
                assert forall|i: int| 0 <= i < net.layers() && i != l - 1 implies (#[trigger] after.b[i])
                    == g0.b[i] by {
                    assert(gj.b[i] == g0.b[i]);
                }
                assert forall|i: int| 0 <= i <= net.layers() && i != l - 1 implies (
                #[trigger] after.a[i]) == g0.a[i] by {
                    assert(gj.a[i] == g0.a[i]);
                }
                assert forall|k: int, c: int|
                    0 <= k < net.width(l - 1) && j + 1 <= c < n implies (#[trigger] after.w[l - 1].at(
                    k,
                    c,
                )) == g0.w[l - 1].at(k, c) by {
                    assert(gj.w[l - 1].at(k, c) == g0.w[l - 1].at(k, c));
                }
                assert forall|c: int| j + 1 <= c < n implies (#[trigger] after.b[l - 1].at(0, c))
                    == g0.b[l - 1].at(0, c) by {
                    assert(gj.b[l - 1].at(0, c) == g0.b[l - 1].at(0, c));
                }
                assert forall|m: Arith<S>| (#[trigger] m.agrees()) implies m.layer_swept(
                    net,
                    g0,
                    after,
                    l as int,
                    j + 1,
                ) by {
                    assert(m.layer_swept(net, g0, gj, l as int, j as int));
                    assert(m.unit_swept(net, gj, after, l as int, j as int));
                    let ug = m.unit_gradient(g0.a[l as int].at(0, j as int), net.a[l as int].at(0, j as int));
                    assert forall|c: int| 0 <= c < j + 1 implies (#[trigger] after.b[l - 1].at(0, c))
                        == (m.plus)(
                        g0.b[l - 1].at(0, c),
                        m.unit_gradient(g0.a[l as int].at(0, c), net.a[l as int].at(0, c)),
                    ) by {
                        if c < j {
                            assert(gj.b[l - 1].at(0, c) == (m.plus)(
                                g0.b[l - 1].at(0, c),
                                m.unit_gradient(g0.a[l as int].at(0, c), net.a[l as int].at(0, c)),
                            ));
                        } else {
                            assert(gj.b[l - 1].at(0, c) == g0.b[l - 1].at(0, c));
                        }
                    }
                    assert forall|k: int, c: int|
                        0 <= k < net.width(l - 1) && 0 <= c < j + 1 implies (
                    #[trigger] after.w[l - 1].at(k, c)) == (m.plus)(
                        g0.w[l - 1].at(k, c),
                        (m.times)(
                            m.unit_gradient(g0.a[l as int].at(0, c), net.a[l as int].at(0, c)),
                            net.a[l - 1].at(0, k),
                        ),
                    ) by {
                        if c < j {
                            assert(gj.w[l - 1].at(k, c) == (m.plus)(
                                g0.w[l - 1].at(k, c),
                                (m.times)(
                                    m.unit_gradient(
                                        g0.a[l as int].at(0, c),
                                        net.a[l as int].at(0, c),
                                    ),
                                    net.a[l - 1].at(0, k),
                                ),
                            ));
                            assert(after.w[l - 1].at(k, c) == gj.w[l - 1].at(k, c));
                        } else {
                            assert(gj.w[l - 1].at(k, c) == g0.w[l - 1].at(k, c));
                            assert(after.w[l - 1].at(k, j as int) == (m.plus)(
                                gj.w[l - 1].at(k, j as int),
                                (m.times)(ug, net.a[l - 1].at(0, k)),
                            ));
                        }
                    }
                    assert forall|k: int| 0 <= k < net.width(l - 1) implies (
                    #[trigger] after.a[l - 1].at(0, k)) == m.backflow(
                        g0.a[l - 1].at(0, k),
                        net.w[l - 1],
                        net.a[l as int],
                        g0.a[l as int],
                        k,
                        (j + 1) as nat,
                    ) by {
                        assert(gj.a[l - 1].at(0, k) == m.backflow(
                            g0.a[l - 1].at(0, k),
                            net.w[l - 1],
                            net.a[l as int],
                            g0.a[l as int],
                            k,
                            j as nat,
                        ));
                        assert(after.w[l - 1].at(k, j as int) == (m.plus)(
                            gj.w[l - 1].at(k, j as int),
                            (m.times)(ug, net.a[l - 1].at(0, k)),
                        ));
                        assert(after.a[l - 1].at(0, k) == (m.plus)(
                            gj.a[l - 1].at(0, k),
                            (m.times)(ug, net.w[l - 1].at(k, j as int)),
                        ));
                    }
                    assert(m.layer_swept(net, g0, after, l as int, j + 1));
                }
            }
            j += 1;
        }
    }

    /// Puts zero into every error signal.
    fn clear_signals(&mut self)
        requires
            old(self)@.wf(),
        ensures
            final(self)@.wf(),
            final(self)@.same_shape(old(self)@),
            final(self)@.w == old(self)@.w,
            final(self)@.b == old(self)@.b,
            forall|m: Arith<S>| (#[trigger] m.agrees()) ==> forall|i: int|
                0 <= i <= old(self)@.layers() ==> (#[trigger] final(self)@.a[i]) == Grid::filled(
                    1,
                    old(self)@.a[i].columns,
                    m.zero(),
                ),
    {
        let ghost g0 = self@;
        let count = self.a.len();
        let mut l: usize = 0;
        while l < count
            invariant
                l <= count,
                count == g0.layers() + 1,
                g0.wf(),
                self@.wf(),
                self@.same_shape(g0),
                self@.w == g0.w,
                self@.b == g0.b,
                forall|m: Arith<S>| (#[trigger] m.agrees()) ==> forall|i: int|
                    0 <= i < l ==> (#[trigger] self@.a[i]) == Grid::filled(
                        1,
                        g0.a[i].columns,
                        m.zero(),
                    ),
            decreases count - l,
        {
            let ghost gl = self@;
            assert(gl.a[l as int].wf() && gl.a[l as int].same_shape(g0.a[l as int]));
            assert(g0.a[l as int].wf());
            self.a[l].fill(S::from_count(0));
            proof {
                let after = self@;
                assert(after.w == gl.w && after.b == gl.b);
                assert forall|i: int| 0 <= i < after.a.len() implies (#[trigger] after.a[i]).same_shape(
                    gl.a[i],
                ) && after.a[i].cells.len() == gl.a[i].cells.len() by {
                    if i != l {
                        assert(after.a[i] == gl.a[i]);
                    }
                }
                gl.lemma_shape_kept(after);
                after.lemma_same_shape_chain(gl, g0);
                assert forall|m: Arith<S>| (#[trigger] m.agrees()) implies forall|i: int|
                    0 <= i < l + 1 ==> (#[trigger] after.a[i]) == Grid::filled(
                        1,
                        g0.a[i].columns,
                        m.zero(),
                    ) by {
                    assert forall|i: int| 0 <= i < l + 1 implies (#[trigger] after.a[i])
                        == Grid::filled(1, g0.a[i].columns, m.zero()) by {
                        if i < l {
                            assert(after.a[i] == gl.a[i]);
                        }
                    }
                }
            }
            l += 1;
        }
    }

    /// Makes the error signal of the output layer of `g` the output of this
    /// network less row `row` of the targets.
    fn output_error(&self, g: &mut NeuralNetwork<S>, truth_out: &Matrix<S>, row: usize)
        requires
            self@.wf(),
            old(g)@.wf(),
            old(g)@.same_shape(self@),
            truth_out@.wf(),
            row < truth_out.rows,
            truth_out.columns == self@.width(self@.layers() as int),
        ensures
            final(g)@.wf(),
            final(g)@.same_shape(old(g)@),
            final(g)@.w == old(g)@.w,
            final(g)@.b == old(g)@.b,
            forall|i: int| 0 <= i < self@.layers() ==> (#[trigger] final(g)@.a[i]) == old(g)@.a[i],
            forall|m: Arith<S>| (#[trigger] m.agrees()) ==> forall|c: int|
                0 <= c < truth_out.columns ==> (#[trigger] final(g)@.a[self@.layers() as int].at(
                    0,
                    c,
                )) == (m.minus)(
                    self@.a[self@.layers() as int].at(0, c),
                    truth_out@.row(row as int).at(0, c),
                ),
    {
        let ghost net = self@;
        let ghost gz = g@;
        let ghost y = truth_out@.row(row as int);
        let layers = self.layers();
        let width = truth_out.columns;
        let mut j: usize = 0;
        while j < width
            invariant
                j <= width,
                width == truth_out.columns,
                width == net.width(layers as int),
                row < truth_out.rows,
                truth_out@.wf(),
                y == truth_out@.row(row as int),
                layers == net.layers(),
                net == self@,
                net.wf(),
                gz.wf(),
                gz.same_shape(net),
                g@.wf(),
                g@.same_shape(gz),
                g@.w == gz.w,
                g@.b == gz.b,
                forall|i: int| 0 <= i < layers ==> (#[trigger] g@.a[i]) == gz.a[i],
                forall|m: Arith<S>| (#[trigger] m.agrees()) ==> forall|c: int|
                    0 <= c < j ==> (#[trigger] g@.a[layers as int].at(0, c)) == (m.minus)(
                        net.a[layers as int].at(0, c),
                        y.at(0, c),
                    ),
            decreases width - j,
        {
            let ghost gj = g@;
            proof {
                lemma_row_at(truth_out@, row as int, j as int);
                assert(net.a[layers as int].wf() && gz.a[layers as int].wf());
                assert(gj.a[layers as int].same_shape(gz.a[layers as int]));
                assert(gz.a[layers as int].same_shape(net.a[layers as int]));
                assert(gj.a[layers as int].wf());
            }
            let d = self.activation(layers, j).minus(truth_out.get(row, j));
            g.set_activation(layers, j, d);
            proof {
                let after = g@;
                after.lemma_same_shape_chain(gj, gz);
                assert forall|i: int| 0 <= i < layers implies (#[trigger] after.a[i]) == gz.a[i] by {
                    assert(gj.a[i] == gz.a[i]);
                }
                assert forall|m: Arith<S>| (#[trigger] m.agrees()) implies forall|c: int|
                    0 <= c < j + 1 ==> (#[trigger] after.a[layers as int].at(0, c)) == (m.minus)(
                        net.a[layers as int].at(0, c),
                        y.at(0, c),
                    ) by {
                    assert forall|c: int| 0 <= c < j + 1 implies (
                    #[trigger] after.a[layers as int].at(0, c)) == (m.minus)(
                        net.a[layers as int].at(0, c),
                        y.at(0, c),
                    ) by {
                        lemma_with_cell(gj.a[layers as int], 0, j as int, d, 0, c);
                        if c < j {
                            assert(gj.a[layers as int].at(0, c) == (m.minus)(
                                net.a[layers as int].at(0, c),
                                y.at(0, c),
                            ));
                        }
                    }
                }
            }
            j += 1;
        }
    }

    /// One sample's part of backpropagation: the forward pass for row `row`
    /// of the dataset, then the backward sweep from the last layer to the
    /// first.
    fn backprop_sample(
        &mut self,
        g: &mut NeuralNetwork<S>,
        truth_in: &Matrix<S>,
        truth_out: &Matrix<S>,
        row: usize,
    )
        requires
            old(self)@.wf(),
            old(g)@.wf(),
            old(g)@.same_shape(old(self)@),
            old(self)@.fits(truth_in@, truth_out@),
            row < truth_in.rows,
        ensures
            final(self)@.wf(),
            final(self)@.same_shape(old(self)@),
            final(self)@.w == old(self)@.w,
            final(self)@.b == old(self)@.b,
            final(g)@.wf(),
            final(g)@.same_shape(old(g)@),
            forall|m: Arith<S>| (#[trigger] m.agrees()) ==> {
                &&& forall|l: nat|
                    l <= old(self)@.layers() ==> final(self)@.a[l as int] == m.activation(
                        old(self)@.w,
                        old(self)@.b,
                        truth_in@.row(row as int),
                        l,
                    )
                &&& m.sample_swept(
                    old(self)@.w,
                    old(self)@.b,
                    truth_in@.row(row as int),
                    truth_out@.row(row as int),
                    old(g)@,
                    final(g)@,
                    0,
                )
            },
    {
        let ghost start = self@;
        let ghost g0 = g@;
        let ghost x = truth_in@.row(row as int);
        let ghost y = truth_out@.row(row as int);
        proof {
            assert(start.a[0].wf() && start.w[0].wf());
        }
        let sample = truth_in.row(row);
        self.input(&sample);
        self.forward();
        let ghost net = self@;
        let layers = self.layers();
        proof {
            net.lemma_same_shape_chain(net, start);
            g0.lemma_same_shape_chain(start, start);
            assert(net.a[layers as int].same_shape(start.a[layers as int]));
        }
        g.clear_signals();
        let ghost gz = g@;
        proof {
            gz.lemma_same_shape_chain(g0, net);
        }
        self.output_error(g, truth_out, row);
        let ghost ge = g@;
        proof {
            ge.lemma_same_shape_chain(gz, g0);
            assert(ge.a[layers as int].wf() && net.a[layers as int].wf());
            assert(ge.a[layers as int].same_shape(gz.a[layers as int]));
            assert(gz.a[layers as int].same_shape(net.a[layers as int]));
            assert forall|m: Arith<S>| (#[trigger] m.agrees()) implies m.sample_swept(
                start.w,
                start.b,
                x,
                y,
                g0,
                ge,
                layers as int,
            ) by {
                assert(net.a[layers as int] == m.activation(start.w, start.b, x, layers as nat));
                m.lemma_signal_at_output(
                    start.w,
                    start.b,
                    x,
                    y,
                    net.a[layers as int],
                    ge.a[layers as int],
                );
                assert forall|i: int| 0 <= i < layers implies (#[trigger] ge.a[i]) == Grid::filled(
                    1,
                    g0.a[i].columns,
                    m.zero(),
                ) by {
                    assert(ge.a[i] == gz.a[i]);
                }
                assert(m.sample_swept(start.w, start.b, x, y, g0, ge, layers as int));
            }
        }
        let mut l: usize = layers;
        while l > 0
            invariant
                l <= layers,
                layers == net.layers(),
                net == self@,
                net.wf(),
                net.w == start.w,
                net.b == start.b,
                g0.wf(),
                g0.same_shape(net),
                g@.wf(),
                g@.same_shape(g0),
                forall|i: int| 0 <= i < l ==> (#[trigger] g@.w[i]) == g0.w[i],
                forall|i: int| 0 <= i < l ==> (#[trigger] g@.b[i]) == g0.b[i],
                forall|m: Arith<S>| (#[trigger] m.agrees()) ==> forall|i: nat|
                    i <= layers ==> net.a[i as int] == m.activation(start.w, start.b, x, i),
                forall|m: Arith<S>| (#[trigger] m.agrees()) ==> m.sample_swept(
                    start.w,
                    start.b,
                    x,
                    y,
                    g0,
                    g@,
                    l as int,
                ),
            decreases l,
        {
            let ghost gl = g@;
            proof {
                gl.lemma_same_shape_chain(g0, net);
            }
            self.backprop_layer(g, l);
            proof {
                let after = g@;
                after.lemma_same_shape_chain(gl, g0);
                assert forall|i: int| 0 <= i < l - 1 implies (#[trigger] after.w[i]) == g0.w[i] by {
                    assert(gl.w[i] == g0.w[i]);
                }
                assert forall|i: int| 0 <= i < l - 1 implies (#[trigger] after.b[i]) == g0.b[i] by {
                    assert(gl.b[i] == g0.b[i]);
                }
                assert forall|m: Arith<S>| (#[trigger] m.agrees()) implies m.sample_swept(
                    start.w,
                    start.b,
                    x,
                    y,
                    g0,
                    after,
                    l - 1,
                ) by {
                    assert(m.sample_swept(start.w, start.b, x, y, g0, gl, l as int));
                    assert(m.layer_swept(net, gl, after, l as int, net.width(l as int) as int));
                    assert(gl.w[l - 1] == g0.w[l - 1]);
                    assert(gl.b[l - 1] == g0.b[l - 1]);
                    m.lemma_sweep_one_layer(start.w, start.b, x, y, net, g0, gl, after, l as int);
                }
            }
            l -= 1;
        }
    }

    /// Works out the gradient by backpropagation and writes it into the
    /// weights and biases of `g`.
    ///
    /// Every sample's shares are added up, sample by sample, and the sums
    /// are divided by the number of samples. Every unit multiplies its error
    /// signal by two on the way back: at the output layer that gives the
    /// derivative of the cost, and each layer further back doubles it once
    /// more. The weights and biases of this network are left alone. The
    /// activations of this network and the error signals of `g` are left as
    /// the last sample made them.
    pub fn backprop(&mut self, g: &mut NeuralNetwork<S>, ti: &Matrix<S>, to: &Matrix<S>)
        requires
            old(self)@.wf(),
            old(g)@.wf(),
            old(g)@.same_shape(old(self)@),
            old(self)@.fits(ti@, to@),
        ensures
            final(self)@.wf(),
            final(self)@.same_shape(old(self)@),
            final(self)@.w == old(self)@.w,
            final(self)@.b == old(self)@.b,
            final(g)@.wf(),
            final(g)@.same_shape(old(g)@),
            ti.rows == 0 ==> final(self)@.a == old(self)@.a,
            forall|m: Arith<S>| (#[trigger] m.agrees()) ==> {
                &&& m.gradient_held(
                    old(self)@.w,
                    old(self)@.b,
                    ti@,
                    to@,
                    final(g)@,
                    old(self)@.layers() as int,
                )
                &&& ti.rows > 0 ==> forall|l: nat|
                    l <= old(self)@.layers() ==> {
                        &&& final(self)@.a[l as int] == m.activation(
                            old(self)@.w,
                            old(self)@.b,
                            ti@.row(ti.rows - 1),
                            l,
                        )
                        &&& final(g)@.a[l as int] == m.signal(
                            old(self)@.w,
                            old(self)@.b,
                            ti@.row(ti.rows - 1),
                            to@.row(ti.rows - 1),
                            l,
                        )
                    }
            },
    {
        let ghost start = self@;
        let ghost g0 = g@;
        let n: usize = ti.rows;
        g.fill(S::from_count(0));
        let ghost gf = g@;
        proof {
            gf.lemma_same_shape_chain(g0, start);
            assert forall|m: Arith<S>| (#[trigger] m.agrees()) implies m.totals_held(
                start.w,
                start.b,
                ti@,
                to@,
                gf,
                0,
            ) by {
                assert forall|i: int, j: int|
                    0 <= i < start.w.len() && 0 <= j < start.w[i].columns implies (
                #[trigger] gf.b[i].at(0, j)) == m.zero() by {
                    assert(start.w[i].wf() && start.b[i].wf());
                    assert(g0.b[i].same_shape(start.b[i]));
                    assert(gf.b[i].wf() && gf.b[i].same_shape(g0.b[i]));
                    assert(gf.w[i] == Grid::filled(g0.w[i].rows, g0.w[i].columns, m.zero()));
                    lemma_cell_index(1, gf.b[i].columns as int, 0, j);
                }
                assert forall|i: int, k: int, j: int|
                    0 <= i < start.w.len() && 0 <= k < start.w[i].rows && 0 <= j
                        < start.w[i].columns implies (#[trigger] gf.w[i].at(k, j)) == m.zero() by {
                    assert(start.w[i].wf());
                    assert(g0.w[i].same_shape(start.w[i]));
                    assert(gf.w[i].wf() && gf.w[i].same_shape(g0.w[i]));
                    assert(gf.w[i] == Grid::filled(g0.w[i].rows, g0.w[i].columns, m.zero()));
                    lemma_cell_index(gf.w[i].rows as int, gf.w[i].columns as int, k, j);
                }
                assert(m.totals_held(start.w, start.b, ti@, to@, gf, 0));
            }
        }
        let mut row: usize = 0;
        while row < n
            invariant
                row <= n,
                n == ti.rows,
                start.wf(),
                start.fits(ti@, to@),
                self@.wf(),
                self@.same_shape(start),
                self@.fits(ti@, to@),
                self@.w == start.w,
                self@.b == start.b,
                g@.wf(),
                g@.same_shape(start),
                row == 0 ==> self@.a == start.a,
                forall|m: Arith<S>| (#[trigger] m.agrees()) ==> {
                    &&& m.totals_held(start.w, start.b, ti@, to@, g@, row as nat)
                    &&& row > 0 ==> forall|l: nat|
                        l <= start.layers() ==> {
                            &&& self@.a[l as int] == m.activation(
                                start.w,
                                start.b,
                                ti@.row(row - 1),
                                l,
                            )
                            &&& g@.a[l as int] == m.signal(
                                start.w,
                                start.b,
                                ti@.row(row - 1),
                                to@.row(row - 1),
                                l,
                            )
                        }
                },
            decreases n - row,
        {
            let ghost net = self@;
            let ghost gs = g@;
            self.backprop_sample(g, ti, to, row);
            proof {
                let after = g@;
                self@.lemma_same_shape_chain(net, start);
                after.lemma_same_shape_chain(gs, start);
                assert(self@.a[0].same_shape(start.a[0]));
                assert(self@.a[start.layers() as int].same_shape(start.a[start.layers() as int]));
                assert forall|m: Arith<S>| (#[trigger] m.agrees()) implies m.totals_held(
                    start.w,
                    start.b,
                    ti@,
                    to@,
                    after,
                    (row + 1) as nat,
                ) by {
                    assert(m.totals_held(start.w, start.b, ti@, to@, gs, row as nat));
                    assert(m.sample_swept(
                        start.w,
                        start.b,
                        ti@.row(row as int),
                        to@.row(row as int),
                        gs,
                        after,
                        0,
                    ));
                    assert forall|i: int, j: int|
                        0 <= i < start.w.len() && 0 <= j < start.w[i].columns implies (
                    #[trigger] after.b[i].at(0, j)) == m.bias_total(
                        start.w,
                        start.b,
                        ti@,
                        to@,
                        i,
                        j,
                        (row + 1) as nat,
                    ) by {
                        assert(gs.b[i].at(0, j) == m.bias_total(
                            start.w,
                            start.b,
                            ti@,
                            to@,
                            i,
                            j,
                            row as nat,
                        ));
                    }
                    assert forall|i: int, k: int, j: int|
                        0 <= i < start.w.len() && 0 <= k < start.w[i].rows && 0 <= j
                            < start.w[i].columns implies (#[trigger] after.w[i].at(k, j))
                        == m.weight_total(
                        start.w,
                        start.b,
                        ti@,
                        to@,
                        i,
                        k,
                        j,
                        (row + 1) as nat,
                    ) by {
                        assert(gs.w[i].at(k, j) == m.weight_total(
                            start.w,
                            start.b,
                            ti@,
                            to@,
                            i,
                            k,
                            j,
                            row as nat,
                        ));
                    }
                    assert(m.totals_held(start.w, start.b, ti@, to@, after, (row + 1) as nat));
                }
            }
            row += 1;
        }
        let ghost gt = g@;
        let ghost settled = self@;
        let layers = g.w.len();
        let mut i: usize = 0;
        while i < layers
            invariant
                i <= layers,
                layers == start.layers(),
                n == ti.rows,
                start.wf(),
                gt.wf(),
                gt.same_shape(start),
                g@.wf(),
                g@.same_shape(gt),
                g@.a == gt.a,
                forall|k: int| i <= k < layers ==> (#[trigger] g@.w[k]) == gt.w[k],
                forall|k: int| i <= k < layers ==> (#[trigger] g@.b[k]) == gt.b[k],
                forall|m: Arith<S>| (#[trigger] m.agrees()) ==> m.totals_held(
                    start.w,
                    start.b,
                    ti@,
                    to@,
                    gt,
                    n as nat,
                ),
                forall|m: Arith<S>| (#[trigger] m.agrees()) ==> m.gradient_held(
                    start.w,
                    start.b,
                    ti@,
                    to@,
                    g@,
                    i as int,
                ),
            decreases layers - i,
        {
            let ghost gi = g@;
            proof {
                assert(gi.w[i as int].wf() && gi.b[i as int].wf());
            }
            divide_cells(&mut g.w[i], n);
            divide_cells(&mut g.b[i], n);
            proof {
                let after = g@;
                assert(after.a == gi.a);
                assert forall|k: int| 0 <= k < after.w.len() implies (#[trigger] after.w[k]).same_shape(
                    gi.w[k],
                ) && after.w[k].cells.len() == gi.w[k].cells.len() by {
                    if k != i {
                        assert(after.w[k] == gi.w[k]);
                    }
                }
                assert forall|k: int| 0 <= k < after.b.len() implies (#[trigger] after.b[k]).same_shape(
                    gi.b[k],
                ) && after.b[k].cells.len() == gi.b[k].cells.len() by {
                    if k != i {
                        assert(after.b[k] == gi.b[k]);
                    }
                }
                gi.lemma_shape_kept(after);
                after.lemma_same_shape_chain(gi, gt);
                assert forall|k: int| i + 1 <= k < layers implies (#[trigger] after.w[k])
                    == gt.w[k] by {
                    assert(after.w[k] == gi.w[k]);
                }
                assert forall|k: int| i + 1 <= k < layers implies (#[trigger] after.b[k])
                    == gt.b[k] by {
                    assert(after.b[k] == gi.b[k]);
                }
                assert forall|m: Arith<S>| (#[trigger] m.agrees()) implies m.gradient_held(
                    start.w,
                    start.b,
                    ti@,
                    to@,
                    after,
                    i + 1,
                ) by {
                    assert(m.gradient_held(start.w, start.b, ti@, to@, gi, i as int));
                    assert(m.totals_held(start.w, start.b, ti@, to@, gt, n as nat));
                    assert(start.w[i as int].wf() && start.b[i as int].wf());
                    assert(gt.w[i as int].same_shape(start.w[i as int]));
                    assert(gt.b[i as int].same_shape(start.b[i as int]));
                    assert(gi.w[i as int] == gt.w[i as int]);
                    assert(gi.b[i as int] == gt.b[i as int]);
                    assert forall|c: int, j: int|
                        0 <= c < i + 1 && 0 <= j < start.w[c].columns implies (
                    #[trigger] after.b[c].at(0, j)) == m.bias_gradient(
                        start.w,
                        start.b,
                        ti@,
                        to@,
                        c,
                        j,
                    ) by {
                        if c < i {
                            assert(after.b[c] == gi.b[c]);
                            assert(gi.b[c].at(0, j) == m.bias_gradient(
                                start.w,
                                start.b,
                                ti@,
                                to@,
                                c,
                                j,
                            ));
                        } else {
                            lemma_cell_index(1, gt.b[c].columns as int, 0, j);
                            assert(gt.b[c].at(0, j) == m.bias_total(
                                start.w,
                                start.b,
                                ti@,
                                to@,
                                c,
                                j,
                                n as nat,
                            ));
                            assert(after.b[c].cells[j] == (m.over)(gt.b[c].cells[j], (m.count)(n)));
                            assert(after.b[c].same_shape(gt.b[c]));
                        }
                        assert(after.b[c].at(0, j) == m.bias_gradient(
                            start.w,
                            start.b,
                            ti@,
                            to@,
                            c,
                            j,
                        ));
                    }
                    assert forall|c: int, k: int, j: int|
                        0 <= c < i + 1 && 0 <= k < start.w[c].rows && 0 <= j
                            < start.w[c].columns implies (#[trigger] after.w[c].at(k, j))
                        == m.weight_gradient(start.w, start.b, ti@, to@, c, k, j) by {
                        if c < i {
                            assert(after.w[c] == gi.w[c]);
                            assert(gi.w[c].at(k, j) == m.weight_gradient(
                                start.w,
                                start.b,
                                ti@,
                                to@,
                                c,
                                k,
                                j,
                            ));
                        } else {
                            lemma_cell_index(gt.w[c].rows as int, gt.w[c].columns as int, k, j);
                            assert(gt.w[c].at(k, j) == m.weight_total(
                                start.w,
                                start.b,
                                ti@,
                                to@,
                                c,
                                k,
                                j,
                                n as nat,
                            ));
                            assert(after.w[c].cells[k * gt.w[c].columns + j] == (m.over)(
                                gt.w[c].cells[k * gt.w[c].columns + j],
                                (m.count)(n),
                            ));
                            assert(after.w[c].same_shape(gt.w[c]));
                        }
                        assert(after.w[c].at(k, j) == m.weight_gradient(
                            start.w,
                            start.b,
                            ti@,
                            to@,
                            c,
                            k,
                            j,
                        ));
                    }
                    assert(m.gradient_held(start.w, start.b, ti@, to@, after, i + 1));
                }
            }
            i += 1;
        }
        proof {
            g@.lemma_same_shape_chain(gt, start);
            g0.lemma_same_shape_chain(start, start);
            assert(g@.same_shape(g0)) by {
                assert forall|k: int| 0 <= k < g@.w.len() implies (#[trigger] g@.w[k]).same_shape(
                    g0.w[k],
                ) by {
                    assert(g@.w[k].same_shape(start.w[k]));
                    assert(g0.w[k].same_shape(start.w[k]));
                }
                assert forall|k: int| 0 <= k < g@.b.len() implies (#[trigger] g@.b[k]).same_shape(
                    g0.b[k],
                ) by {
                    assert(g@.b[k].same_shape(start.b[k]));
                    assert(g0.b[k].same_shape(start.b[k]));
                }
                assert forall|k: int| 0 <= k < g@.a.len() implies (#[trigger] g@.a[k]).same_shape(
                    g0.a[k],
                ) by {
                    assert(g@.a[k].same_shape(start.a[k]));
                    assert(g0.a[k].same_shape(start.a[k]));
                }
            }
        }
    }
}

} // verus!
