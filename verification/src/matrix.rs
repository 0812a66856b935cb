//! Dense matrices, stored row by row.

use crate::scalar::{place, sigmoid, Arith, Sampler, Scalar};
use vstd::arithmetic::div_mod::{
    lemma_fundamental_div_mod, lemma_fundamental_div_mod_converse, lemma_mod_bound,
};
use vstd::prelude::*;

verus! {

/// What a matrix is, mathematically: a shape and the cells, row by row.
#[verifier::ext_equal]
pub struct Grid<S> {
    pub rows: nat,
    pub columns: nat,
    pub cells: Seq<S>,
}

impl<S> Grid<S> {
    /// There is one cell for each pair of a row and a column.
    pub open spec fn wf(self) -> bool {
        self.cells.len() == self.rows * self.columns
    }

    /// The cell in row `r` and column `c`.
    pub open spec fn at(self, r: int, c: int) -> S {
        self.cells[r * self.columns + c]
    }

    pub open spec fn same_shape(self, other: Grid<S>) -> bool {
        self.rows == other.rows && self.columns == other.columns
    }

    /// The grid of the given shape with `v` in every cell.
    pub open spec fn filled(rows: nat, columns: nat, v: S) -> Grid<S> {
        Grid { rows, columns, cells: Seq::new(rows * columns, |i: int| v) }
    }

    /// This grid with `v` in row `r` and column `c`.
    pub open spec fn with_cell(self, r: int, c: int, v: S) -> Grid<S> {
        Grid { cells: self.cells.update(r * self.columns + c, v), ..self }
    }

    /// Row `r` as a grid of one row.
    pub open spec fn row(self, r: int) -> Grid<S> {
        Grid {
            rows: 1,
            columns: self.columns,
            cells: self.cells.subrange(r * self.columns, r * self.columns + self.columns),
        }
    }
}

impl<S: Scalar> Arith<S> {
    /// The cell-by-cell sum of two grids of one shape.
    pub open spec fn sum(self, a: Grid<S>, b: Grid<S>) -> Grid<S> {
        Grid { cells: Seq::new(a.cells.len(), |i: int| (self.plus)(a.cells[i], b.cells[i])), ..a }
    }

    /// The cell-by-cell difference of two grids of one shape.
    pub open spec fn difference(self, a: Grid<S>, b: Grid<S>) -> Grid<S> {
        Grid { cells: Seq::new(a.cells.len(), |i: int| (self.minus)(a.cells[i], b.cells[i])), ..a }
    }

    /// Every cell of `a` multiplied by `factor`.
    pub open spec fn scaled(self, a: Grid<S>, factor: S) -> Grid<S> {
        Grid { cells: Seq::new(a.cells.len(), |i: int| (self.times)(a.cells[i], factor)), ..a }
    }

    /// The logistic function applied to every cell of `a`.
    pub open spec fn squashed(self, a: Grid<S>) -> Grid<S> {
        Grid { cells: Seq::new(a.cells.len(), |i: int| self.sigmoid(a.cells[i])), ..a }
    }

    /// The first `k` terms of the product of row `r` of `a` and column `c`
    /// of `b`, added up from the left, starting at zero.
    pub open spec fn inner(self, a: Grid<S>, r: int, b: Grid<S>, c: int, k: nat) -> S
        decreases k,
    {
        if k == 0 {
            self.zero()
        } else {
            (self.plus)(
                self.inner(a, r, b, c, (k - 1) as nat),
                (self.times)(a.at(r, k - 1), b.at(k - 1, c)),
            )
        }
    }

    /// The matrix product of `a` and `b`.
    pub open spec fn product(self, a: Grid<S>, b: Grid<S>) -> Grid<S> {
        Grid {
            rows: a.rows,
            columns: b.columns,
            cells: Seq::new(
                a.rows * b.columns,
                |i: int| self.inner(a, i / (b.columns as int), b, i % (b.columns as int), a.columns),
            ),
        }
    }
}

/// A row's cells lie inside the grid.
pub proof fn lemma_row_bounds(rows: int, columns: int, r: int)
    requires
        0 <= r < rows,
        0 <= columns,
    ensures
        0 <= r * columns,
        r * columns + columns <= rows * columns,
{
    assert(0 <= r * columns && r * columns + columns <= rows * columns) by (nonlinear_arith)
        requires
            0 <= r < rows,
            0 <= columns,
    ;
}

/// A cell's place in the row-by-row order lies inside the grid, and gives
/// its row and column back.
pub proof fn lemma_cell_index(rows: int, columns: int, r: int, c: int)
    requires
        0 <= r < rows,
        0 <= c < columns,
    ensures
        0 <= r * columns <= r * columns + c < rows * columns,
        (r * columns + c) / columns == r,
        (r * columns + c) % columns == c,
{
    lemma_row_bounds(rows, columns, r);
    lemma_fundamental_div_mod_converse(r * columns + c, columns, r, c);
}

/// Every place in the row-by-row order is the place of one cell.
pub proof fn lemma_cell_place(rows: int, columns: int, i: int)
    requires
        0 <= rows,
        0 <= columns,
        0 <= i < rows * columns,
    ensures
        0 <= i / columns < rows,
        0 <= i % columns < columns,
        (i / columns) * columns + i % columns == i,
{
    assert(columns > 0) by (nonlinear_arith)
        requires
            0 <= i < rows * columns,
            0 <= columns,
    ;
    lemma_fundamental_div_mod(i, columns);
    lemma_mod_bound(i, columns);
    let q = i / columns;
    assert(0 <= q < rows) by (nonlinear_arith)
        requires
            0 <= i < rows * columns,
            columns > 0,
            i == columns * q + i % columns,
            0 <= i % columns < columns,
    ;
    assert(q * columns == columns * q) by (nonlinear_arith);
}

/// A row taken out of a grid holds the cells of that row.
pub proof fn lemma_row_at<S>(g: Grid<S>, r: int, c: int)
    requires
        g.wf(),
        0 <= r < g.rows,
        0 <= c < g.columns,
    ensures
        g.row(r).wf(),
        g.row(r).at(0, c) == g.at(r, c),
{
    lemma_row_bounds(g.rows as int, g.columns as int, r);
}

/// Writing one cell changes that cell and no other.
pub proof fn lemma_with_cell<S>(g: Grid<S>, r: int, c: int, v: S, r2: int, c2: int)
    requires
        g.wf(),
        0 <= r < g.rows,
        0 <= c < g.columns,
        0 <= r2 < g.rows,
        0 <= c2 < g.columns,
    ensures
        g.with_cell(r, c, v).wf(),
        g.with_cell(r, c, v).same_shape(g),
        g.with_cell(r, c, v).at(r2, c2) == if r2 == r && c2 == c {
            v
        } else {
            g.at(r2, c2)
        },
{
    lemma_cell_index(g.rows as int, g.columns as int, r, c);
    lemma_cell_index(g.rows as int, g.columns as int, r2, c2);
}

/// The cells of a matrix product are the inner products of rows and columns.
pub proof fn lemma_product_cell<S: Scalar>(m: Arith<S>, a: Grid<S>, b: Grid<S>, r: nat, c: nat)
    requires
        r < a.rows,
        c < b.columns,
    ensures
        m.product(a, b).wf(),
        m.product(a, b).at(r as int, c as int) == m.inner(a, r as int, b, c as int, a.columns),
{
    lemma_cell_index(a.rows as int, b.columns as int, r as int, c as int);
}

/// A dense matrix.
#[derive(Debug)]
pub struct Matrix<S> {
    pub rows: usize,
    pub columns: usize,
    /// The cells, row by row: `rows * columns` of them.
    pub data: Vec<S>,
}

impl<S> View for Matrix<S> {
    type V = Grid<S>;

    open spec fn view(&self) -> Grid<S> {
        Grid { rows: self.rows as nat, columns: self.columns as nat, cells: self.data@ }
    }
}

impl<S: Scalar> Clone for Matrix<S> {
    /// A matrix with the same shape and cells.
    fn clone(&self) -> (r: Self)
        ensures
            r@ == self@,
    {
        let n: usize = self.data.len();
        let mut data: Vec<S> = Vec::new();
        let mut i: usize = 0;
        while i < n
            invariant
                i <= n,
                n == self.data.len(),
                data.len() == i,
                forall|j: int| 0 <= j < i ==> data@[j] == self.data@[j],
            decreases n - i,
        {
            data.push(self.data[i]);
            i += 1;
        }
        Matrix { rows: self.rows, columns: self.columns, data }
    }
}

impl<S: Scalar> Matrix<S> {
    /// The matrix of the given shape with zero in every cell.
    pub fn new(rows: usize, columns: usize) -> (r: Matrix<S>)
        requires
            rows * columns <= usize::MAX,
        ensures
            r@.wf(),
            r.rows == rows,
            r.columns == columns,
            forall|i: int, j: int|
                0 <= i < r@.cells.len() && 0 <= j < r@.cells.len() ==> r@.cells[i] == r@.cells[j],
            forall|m: Arith<S>| (#[trigger] m.agrees()) ==> r@ == Grid::filled(rows as nat, columns as nat, m.zero()),
    {
        let n: usize = rows * columns;
        let zero = S::from_count(0);
        let mut data: Vec<S> = Vec::new();
        let mut i: usize = 0;
        while i < n
            invariant
                i <= n,
                data.len() == i,
                forall|j: int| 0 <= j < i ==> data@[j] == zero,
            decreases n - i,
        {
            data.push(zero);
            i += 1;
        }
        Matrix { rows, columns, data }
    }

    /// Puts `value` into every cell.
    pub fn fill(&mut self, value: S)
        requires
            old(self)@.wf(),
        ensures
            final(self)@ == Grid::filled(old(self)@.rows, old(self)@.columns, value),
    {
        let n: usize = self.data.len();
        let mut i: usize = 0;
        while i < n
            invariant
                i <= n,
                n == self.data.len(),
                self.rows == old(self).rows,
                self.columns == old(self).columns,
                self@.wf(),
                forall|j: int| 0 <= j < i ==> self.data@[j] == value,
            decreases n - i,
        {
            self.data[i] = value;
            i += 1;
        }
    }

    /// Puts the numbers of `values` into the cells, row by row.
    pub fn fill_from(&mut self, values: &Vec<S>)
        requires
            old(self)@.wf(),
            values.len() == old(self)@.cells.len(),
        ensures
            final(self)@ == (Grid { cells: values@, ..old(self)@ }),
            final(self)@.wf(),
    {
        let n: usize = self.data.len();
        let mut i: usize = 0;
        while i < n
            invariant
                i <= n,
                n == self.data.len(),
                n == values.len(),
                self.rows == old(self).rows,
                self.columns == old(self).columns,
                self@.wf(),
                forall|j: int| 0 <= j < i ==> self.data@[j] == values@[j],
            decreases n - i,
        {
            self.data[i] = values[i];
            i += 1;
        }
    }

    /// Draws a number from `rng` for each cell, one after the other and each
    /// with the bounds `low` and `high`, and puts them into the cells row by
    /// row: each cell holds what the source gave in the state before its draw.
    pub fn fill_rand<R: Sampler<S>>(&mut self, low: S, high: S, rng: &mut R)
        requires
            old(self)@.wf(),
        ensures
            final(self)@.wf(),
            final(self)@.same_shape(old(self)@),
            exists|states: Seq<R>|
                {
                    &&& (#[trigger] states.len()) == old(self)@.cells.len() + 1
                    &&& states[0] == *old(rng)
                    &&& states[old(self)@.cells.len() as int] == *final(rng)
                    &&& forall|i: int|
                        (#[trigger] place(i)) && i < old(self)@.cells.len() as int ==> exists|r: &mut R|
                            *r == states[i] && *final(r) == states[i + 1] && #[trigger] call_ensures(
                                R::sample,
                                (r, low, high),
                                final(self)@.cells[i],
                            )
                },
    {
        let Ghost(states) = self.fill_drawn(low, high, rng);
        proof {
            assert(states.len() == old(self)@.cells.len() + 1);
            assert forall|i: int|
                (#[trigger] place(i)) && i < old(self)@.cells.len() as int implies exists|r: &mut R|
                *r == states[i] && *final(r) == states[i + 1] && #[trigger] call_ensures(
                    R::sample,
                    (r, low, high),
                    self@.cells[i],
                ) by {
                let w = choose|r: &mut R|
                    *r == states[i] && *final(r) == states[i + 1] && #[trigger] call_ensures(
                        R::sample,
                        (r, low, high),
                        self@.cells[i],
                    );
                assert(*w == states[i] && *final(w) == states[i + 1] && call_ensures(
                    R::sample,
                    (w, low, high),
                    self@.cells[i],
                ));
            }
        }
    }

    /// Puts a number drawn from `rng` into every cell, and hands back the
    /// states that the source went through: the state it was in, and after
    /// it the state that each draw left it in.
    pub(crate) fn fill_drawn<R: Sampler<S>>(&mut self, low: S, high: S, rng: &mut R) -> (states:
        Ghost<Seq<R>>)
        requires
            old(self)@.wf(),
        ensures
            final(self)@.wf(),
            final(self)@.same_shape(old(self)@),
            states@.len() == old(self)@.cells.len() + 1,
            states@[0] == *old(rng),
            states@[old(self)@.cells.len() as int] == *final(rng),
            forall|i: int|
                (#[trigger] place(i)) && i < old(self)@.cells.len() as int ==> exists|r: &mut R|
                    *r == states@[i] && *final(r) == states@[i + 1] && #[trigger] call_ensures(
                        R::sample,
                        (r, low, high),
                        final(self)@.cells[i],
                    ),
    {
        let n: usize = self.data.len();
        let mut drawn: Vec<S> = Vec::new();
        let ghost mut states: Seq<R> = seq![*rng];
        while drawn.len() < n
            invariant
                drawn.len() <= n,
                states.len() == drawn.len() + 1,
                states[0] == *old(rng),
                states[drawn.len() as int] == *rng,
                forall|i: int|
                    (#[trigger] place(i)) && i < drawn.len() as int ==> exists|r: &mut R|
                        *r == states[i] && *final(r) == states[i + 1] && #[trigger] call_ensures(
                            R::sample,
                            (r, low, high),
                            drawn@[i],
                        ),
            decreases n - drawn.len(),
        {
            let ghost before = states;
            let ghost had = drawn@;
            let ghost source = *rng;
            let v = rng.sample(low, high);
            assert(exists|r: &mut R|
                *r == source && *final(r) == *rng && #[trigger] call_ensures(
                    R::sample,
                    (r, low, high),
                    v,
                ));
            proof {
                states = states.push(*rng);
            }
            drawn.push(v);
            proof {
                assert forall|i: int| (#[trigger] place(i)) && i < drawn.len() as int implies exists|
                    r: &mut R,
                |
                    *r == states[i] && *final(r) == states[i + 1] && #[trigger] call_ensures(
                        R::sample,
                        (r, low, high),
                        drawn@[i],
                    ) by {
                    if i < had.len() {
                        assert(states[i] == before[i]);
                        assert(states[i + 1] == before[i + 1]);
                        assert(drawn@[i] == had[i]);
                        let w = choose|r: &mut R|
                            *r == before[i] && *final(r) == before[i + 1] && #[trigger] call_ensures(
                                R::sample,
                                (r, low, high),
                                had[i],
                            );
                        assert(*w == states[i] && *final(w) == states[i + 1] && call_ensures(
                            R::sample,
                            (w, low, high),
                            drawn@[i],
                        ));
                    } else {
                        assert(states[i] == source);
                        assert(states[i + 1] == *rng);
                        assert(drawn@[i] == v);
                        let w = choose|r: &mut R|
                            *r == source && *final(r) == *rng && #[trigger] call_ensures(
                                R::sample,
                                (r, low, high),
                                v,
                            );
                        assert(*w == states[i] && *final(w) == states[i + 1] && call_ensures(
                            R::sample,
                            (w, low, high),
                            drawn@[i],
                        ));
                    }
                    assert(exists|r: &mut R|
                        *r == states[i] && *final(r) == states[i + 1] && #[trigger] call_ensures(
                            R::sample,
                            (r, low, high),
                            drawn@[i],
                        ));
                }
            }
        }
        let ghost values = drawn@;
        self.fill_from(&drawn);
        proof {
            assert(self@.cells == values);
            assert forall|i: int|
                (#[trigger] place(i)) && i < old(self)@.cells.len() as int implies exists|r: &mut R|
                *r == states[i] && *final(r) == states[i + 1] && #[trigger] call_ensures(
                    R::sample,
                    (r, low, high),
                    self@.cells[i],
                ) by {
                assert(self@.cells[i] == values[i]);
                let w = choose|r: &mut R|
                    *r == states[i] && *final(r) == states[i + 1] && #[trigger] call_ensures(
                        R::sample,
                        (r, low, high),
                        values[i],
                    );
                assert(*w == states[i] && *final(w) == states[i + 1] && call_ensures(
                    R::sample,
                    (w, low, high),
                    self@.cells[i],
                ));
                assert(exists|r: &mut R|
                    *r == states[i] && *final(r) == states[i + 1] && #[trigger] call_ensures(
                        R::sample,
                        (r, low, high),
                        self@.cells[i],
                    ));
            }
        }
        Ghost(states)
    }

    /// Adds `other` to this matrix, cell by cell.
    pub fn add(&mut self, other: &Matrix<S>)
        requires
            old(self)@.wf(),
            other@.wf(),
            old(self)@.same_shape(other@),
        ensures
            final(self)@.wf(),
            final(self)@.same_shape(old(self)@),
            forall|m: Arith<S>| (#[trigger] m.agrees()) ==> final(self)@ == m.sum(old(self)@, other@),
    {
        let n: usize = self.data.len();
        let mut i: usize = 0;
        while i < n
            invariant
                i <= n,
                n == self.data.len(),
                n == other.data.len(),
                self.rows == old(self).rows,
                self.columns == old(self).columns,
                forall|j: int| i <= j < n ==> self.data@[j] == old(self).data@[j],
                forall|m: Arith<S>| (#[trigger] m.agrees()) ==> forall|j: int|
                        0 <= j < i ==> self.data@[j] == (m.plus)(
                            old(self).data@[j],
                            other.data@[j],
                        ),
            decreases n - i,
        {
            let v = self.data[i].plus(other.data[i]);
            self.data[i] = v;
            i += 1;
        }
    }

    /// Subtracts `other` from this matrix, cell by cell.
    pub fn sub(&mut self, other: &Matrix<S>)
        requires
            old(self)@.wf(),
            other@.wf(),
            old(self)@.same_shape(other@),
        ensures
            final(self)@.wf(),
            final(self)@.same_shape(old(self)@),
            forall|m: Arith<S>| (#[trigger] m.agrees()) ==> final(self)@ == m.difference(old(self)@, other@),
    {
        let n: usize = self.data.len();
        let mut i: usize = 0;
        while i < n
            invariant
                i <= n,
                n == self.data.len(),
                n == other.data.len(),
                self.rows == old(self).rows,
                self.columns == old(self).columns,
                forall|j: int| i <= j < n ==> self.data@[j] == old(self).data@[j],
                forall|m: Arith<S>| (#[trigger] m.agrees()) ==> forall|j: int|
                        0 <= j < i ==> self.data@[j] == (m.minus)(
                            old(self).data@[j],
                            other.data@[j],
                        ),
            decreases n - i,
        {
            let v = self.data[i].minus(other.data[i]);
            self.data[i] = v;
            i += 1;
        }
    }

    /// Puts `value` into row `row` and column `col`.
    pub fn set(&mut self, row: usize, col: usize, value: S)
        requires
            old(self)@.wf(),
            row < old(self).rows,
            col < old(self).columns,
        ensures
            final(self)@ == old(self)@.with_cell(row as int, col as int, value),
            final(self)@.wf(),
    {
        proof {
            lemma_cell_index(self.rows as int, self.columns as int, row as int, col as int);
            assert(self.data.len() == self.rows * self.columns);
        }
        let columns = self.columns;
        self.data[row * columns + col] = value;
    }

    /// The cell in row `row` and column `col`.
    pub fn get(&self, row: usize, col: usize) -> (r: S)
        requires
            self@.wf(),
            row < self.rows,
            col < self.columns,
        ensures
            r == self@.at(row as int, col as int),
    {
        proof {
            lemma_cell_index(self.rows as int, self.columns as int, row as int, col as int);
            assert(self.data.len() == self.rows * self.columns);
        }
        self.data[row * self.columns + col]
    }

    /// Applies the logistic function to every cell.
    pub fn sigmoid(&mut self)
        requires
            old(self)@.wf(),
        ensures
            final(self)@.wf(),
            final(self)@.same_shape(old(self)@),
            forall|m: Arith<S>| (#[trigger] m.agrees()) ==> final(self)@ == m.squashed(old(self)@),
    {
        let n: usize = self.data.len();
        let mut i: usize = 0;
        while i < n
            invariant
                i <= n,
                n == self.data.len(),
                n == old(self).data.len(),
                self.rows == old(self).rows,
                self.columns == old(self).columns,
                forall|j: int| i <= j < n ==> self.data@[j] == old(self).data@[j],
                forall|m: Arith<S>| (#[trigger] m.agrees()) ==> forall|j: int|
                        0 <= j < i ==> self.data@[j] == m.sigmoid(old(self).data@[j]),
            decreases n - i,
        {
            let v = sigmoid(self.data[i]);
            self.data[i] = v;
            i += 1;
        }
    }

    /// A copy of row `row`, as a matrix of one row.
    pub fn row(&self, row: usize) -> (r: Matrix<S>)
        requires
            self@.wf(),
            row < self.rows,
        ensures
            r@ == self@.row(row as int),
            r@.wf(),
    {
        let columns = self.columns;
        let mut data: Vec<S> = Vec::new();
        let mut col: usize = 0;
        while col < columns
            invariant
                col <= columns,
                columns == self.columns,
                row < self.rows,
                self@.wf(),
                data.len() == col,
                forall|c: int| 0 <= c < col ==> data@[c] == self@.at(row as int, c),
            decreases columns - col,
        {
            data.push(self.get(row, col));
            col += 1;
        }
        proof {
            lemma_row_bounds(self.rows as int, self.columns as int, row as int);
        }
        Matrix { rows: 1, columns, data }
    }

    /// Replaces this matrix by its product with `other`.
    pub fn dot(&mut self, other: &Matrix<S>)
        requires
            old(self)@.wf(),
            other@.wf(),
            old(self).columns == other.rows,
            old(self).rows * other.columns <= usize::MAX,
        ensures
            final(self)@.wf(),
            final(self).rows == old(self).rows,
            final(self).columns == other.columns,
            forall|m: Arith<S>| (#[trigger] m.agrees()) ==> final(self)@ == m.product(old(self)@, other@),
    {
        let rows = self.rows;
        let columns = other.columns;
        let depth = self.columns;
        let mut data: Vec<S> = Vec::new();
        let mut row: usize = 0;
        while row < rows
            invariant
                row <= rows,
                rows == self.rows,
                columns == other.columns,
                depth == self.columns,
                depth == other.rows,
                self@.wf(),
                other@.wf(),
                *self == *old(self),
                data.len() == row * columns,
                forall|m: Arith<S>| (#[trigger] m.agrees()) ==> forall|i: int|
                        0 <= i < data.len() ==> data@[i] == m.inner(
                            self@,
                            i / (columns as int),
                            other@,
                            i % (columns as int),
                            depth as nat,
                        ),
            decreases rows - row,
        {
            let mut col: usize = 0;
            while col < columns
                invariant
                    col <= columns,
                    row < rows,
                    rows == self.rows,
                    columns == other.columns,
                    depth == self.columns,
                    depth == other.rows,
                    self@.wf(),
                    other@.wf(),
                    *self == *old(self),
                    data.len() == row * columns + col,
                    forall|m: Arith<S>| (#[trigger] m.agrees()) ==> forall|i: int|
                            0 <= i < data.len() ==> data@[i] == m.inner(
                                self@,
                                i / (columns as int),
                                other@,
                                i % (columns as int),
                                depth as nat,
                            ),
                decreases columns - col,
            {
                let mut sum = S::from_count(0);
                let mut k: usize = 0;
                while k < depth
                    invariant
                        k <= depth,
                        row < rows,
                        col < columns,
                        rows == self.rows,
                        columns == other.columns,
                        depth == self.columns,
                        depth == other.rows,
                        self@.wf(),
                        other@.wf(),
                        forall|m: Arith<S>| (#[trigger] m.agrees()) ==> sum == m.inner(
                                self@,
                                row as int,
                                other@,
                                col as int,
                                k as nat,
                            ),
                    decreases depth - k,
                {
                    sum = sum.plus(self.get(row, k).times(other.get(k, col)));
                    k += 1;
                }
                proof {
                    lemma_cell_index(rows as int, columns as int, row as int, col as int);
                }
                data.push(sum);
                col += 1;
            }
            assert(row * columns + columns == (row + 1) * columns) by (nonlinear_arith);
            row += 1;
        }
        *self = Matrix { rows, columns, data };
    }

    /// Multiplies every cell by `value`.
    pub fn dotf(&mut self, value: S)
        requires
            old(self)@.wf(),
        ensures
            final(self)@.wf(),
            final(self)@.same_shape(old(self)@),
            forall|m: Arith<S>| (#[trigger] m.agrees()) ==> final(self)@ == m.scaled(old(self)@, value),
    {
        let n: usize = self.data.len();
        let mut i: usize = 0;
        while i < n
            invariant
                i <= n,
                n == self.data.len(),
                n == old(self).data.len(),
                self.rows == old(self).rows,
                self.columns == old(self).columns,
                forall|j: int| i <= j < n ==> self.data@[j] == old(self).data@[j],
                forall|m: Arith<S>| (#[trigger] m.agrees()) ==> forall|j: int|
                        0 <= j < i ==> self.data@[j] == (m.times)(old(self).data@[j], value),
            decreases n - i,
        {
            let v = self.data[i].times(value);
            self.data[i] = v;
            i += 1;
        }
    }

    /// The matrix whose rows are the first `data[0].len()` entries of each
    /// entry of `data`.
    pub fn from_2d_vec(data: &Vec<Vec<S>>) -> (r: Matrix<S>)
        requires
            data.len() > 0,
            forall|i: int| 0 <= i < data.len() ==> (#[trigger] data@[i]).len() >= data@[0].len(),
            data.len() * data@[0].len() <= usize::MAX,
        ensures
            r@.wf(),
            r.rows == data.len(),
            r.columns == data@[0].len(),
            forall|i: int, j: int|
                0 <= i < r.rows && 0 <= j < r.columns ==> r@.at(i, j) == data@[i]@[j],
    {
        let rows = data.len();
        let columns = data[0].len();
        let mut cells: Vec<S> = Vec::new();
        let mut row: usize = 0;
        while row < rows
            invariant
                row <= rows,
                rows == data.len(),
                columns == data@[0].len(),
                forall|i: int| 0 <= i < data.len() ==> (#[trigger] data@[i]).len() >= columns,
                cells.len() == row * columns,
                forall|k: int|
                    0 <= k < cells.len() ==> cells@[k] == data@[k / (columns as int)]@[k % (columns as int)],
            decreases rows - row,
        {
            let mut col: usize = 0;
            while col < columns
                invariant
                    col <= columns,
                    row < rows,
                    rows == data.len(),
                    columns == data@[0].len(),
                    forall|i: int| 0 <= i < data.len() ==> (#[trigger] data@[i]).len() >= columns,
                    cells.len() == row * columns + col,
                    forall|k: int|
                        0 <= k < cells.len() ==> cells@[k] == data@[k / (columns as int)]@[k % (
                        columns as int)],
                decreases columns - col,
            {
                proof {
                    lemma_cell_index(rows as int, columns as int, row as int, col as int);
                }
                cells.push(data[row][col]);
                col += 1;
            }
            assert(row * columns + columns == (row + 1) * columns) by (nonlinear_arith);
            row += 1;
        }
        let r = Matrix { rows, columns, data: cells };
        assert forall|i: int, j: int| 0 <= i < r.rows && 0 <= j < r.columns implies r@.at(i, j)
            == data@[i]@[j] by {
            lemma_cell_index(rows as int, columns as int, i, j);
        }
        r
    }
}

/// Makes `dst` the matrix product of `a` and `b`.
pub fn mat_dot<S: Scalar>(dst: &mut Matrix<S>, a: &Matrix<S>, b: &Matrix<S>)
    requires
        old(dst)@.wf(),
        a@.wf(),
        b@.wf(),
        a.columns == b.rows,
        old(dst).rows == a.rows,
        old(dst).columns == b.columns,
    ensures
        final(dst)@.wf(),
        final(dst)@.same_shape(old(dst)@),
        forall|m: Arith<S>| (#[trigger] m.agrees()) ==> final(dst)@ == m.product(a@, b@),
{
    assert(dst.data.len() == a.rows * b.columns);
    let mut result = a.clone();
    result.dot(b);
    *dst = result;
}

/// Makes `dst` the cell-by-cell sum of `a` and `b`.
pub fn mat_sum<S: Scalar>(dst: &mut Matrix<S>, a: &Matrix<S>, b: &Matrix<S>)
    requires
        old(dst)@.wf(),
        a@.wf(),
        b@.wf(),
        old(dst)@.same_shape(a@),
        old(dst)@.same_shape(b@),
    ensures
        final(dst)@.wf(),
        final(dst)@.same_shape(old(dst)@),
        forall|m: Arith<S>| (#[trigger] m.agrees()) ==> final(dst)@ == m.sum(a@, b@),
{
    let mut result = a.clone();
    result.add(b);
    *dst = result;
}

} // verus!
