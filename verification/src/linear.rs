//! The smallest model: a line through the origin, `y = x * w`, fitted to a
//! table of `(x, y)` rows.

use crate::matrix::{Grid, Matrix};
use crate::scalar::{Arith, Scalar};
use vstd::prelude::*;

verus! {

impl<S: Scalar> Arith<S> {
    /// The squared errors of the line of slope `w` on the first `n` rows of
    /// `data`, added up from zero.
    pub open spec fn line_error(self, data: Grid<S>, w: S, n: nat) -> S
        decreases n,
    {
        if n == 0 {
            self.zero()
        } else {
            let d = (self.minus)((self.times)(data.at(n - 1, 0), w), data.at(n - 1, 1));
            (self.plus)(self.line_error(data, w, (n - 1) as nat), (self.times)(d, d))
        }
    }

    /// The mean squared error of the line of slope `w` on `data`.
    pub open spec fn line_cost(self, data: Grid<S>, w: S) -> S {
        (self.over)(self.line_error(data, w, data.rows), (self.count)(data.rows as usize))
    }

    /// The derivatives of the squared errors of the first `n` rows of `data`
    /// along `w`, `2 * (x * w - y) * x` each, added up from zero.
    pub open spec fn line_pull(self, data: Grid<S>, w: S, n: nat) -> S
        decreases n,
    {
        if n == 0 {
            self.zero()
        } else {
            let x = data.at(n - 1, 0);
            let y = data.at(n - 1, 1);
            (self.plus)(
                self.line_pull(data, w, (n - 1) as nat),
                (self.times)((self.times)(self.two(), (self.minus)((self.times)(x, w), y)), x),
            )
        }
    }

    /// The derivative of the mean squared error along `w`.
    pub open spec fn line_gradient(self, data: Grid<S>, w: S) -> S {
        (self.over)(self.line_pull(data, w, data.rows), (self.count)(data.rows as usize))
    }

    /// How much the mean squared error grows, per unit, when `step` is added
    /// to `w`.
    pub open spec fn line_slope(self, data: Grid<S>, w: S, step: S) -> S {
        (self.over)(
            (self.minus)(self.line_cost(data, (self.plus)(w, step)), self.line_cost(data, w)),
            step,
        )
    }
}

/// The mean squared error of the line of slope `w` on the rows `(x, y)` of
/// `data`.
pub fn cost<S: Scalar>(data: &Matrix<S>, w: S) -> (r: S)
    requires
        data@.wf(),
        data.columns == 2,
    ensures
        forall|m: Arith<S>| (#[trigger] m.agrees()) ==> r == m.line_cost(data@, w),
{
    let mut result = S::from_count(0);
    let mut i: usize = 0;
    while i < data.rows
        invariant
            i <= data.rows,
            data@.wf(),
            data.columns == 2,
            forall|m: Arith<S>| (#[trigger] m.agrees()) ==> result == m.line_error(
                data@,
                w,
                i as nat,
            ),
        decreases data.rows - i,
    {
        let x = data.get(i, 0);
        let y = x.times(w);
        let expected = data.get(i, 1);
        let d = y.minus(expected);
        result = result.plus(d.times(d));
        i += 1;
    }
    result.over(S::from_count(data.rows))
}

/// The derivative along `w` of the mean squared error of the line of slope
/// `w` on the rows `(x, y)` of `data`.
pub fn dcost<S: Scalar>(data: &Matrix<S>, w: S) -> (r: S)
    requires
        data@.wf(),
        data.columns == 2,
    ensures
        forall|m: Arith<S>| (#[trigger] m.agrees()) ==> r == m.line_gradient(data@, w),
{
    let mut result = S::from_count(0);
    let mut i: usize = 0;
    while i < data.rows
        invariant
            i <= data.rows,
            data@.wf(),
            data.columns == 2,
            forall|m: Arith<S>| (#[trigger] m.agrees()) ==> result == m.line_pull(
                data@,
                w,
                i as nat,
            ),
        decreases data.rows - i,
    {
        let x = data.get(i, 0);
        let y = data.get(i, 1);
        result = result.plus(S::from_count(2).times(x.times(w).minus(y)).times(x));
        i += 1;
    }
    result.over(S::from_count(data.rows))
}

/// The slope of the mean squared error along `w` by a finite difference:
/// the cost at `w + step` less the cost at `w`, over `step`.
pub fn finite_diff<S: Scalar>(data: &Matrix<S>, w: S, step: S) -> (r: S)
    requires
        data@.wf(),
        data.columns == 2,
    ensures
        forall|m: Arith<S>| (#[trigger] m.agrees()) ==> r == m.line_slope(data@, w, step),
{
    cost(data, w.plus(step)).minus(cost(data, w)).over(step)
}

/// One step of gradient descent: `w` less `rate` times the derivative `dw`.
pub fn learn<S: Scalar>(w: S, dw: S, rate: S) -> (r: S)
    ensures
        forall|m: Arith<S>| (#[trigger] m.agrees()) ==> r == (m.minus)(w, (m.times)(dw, rate)),
{
    w.minus(dw.times(rate))
}

} // verus!
