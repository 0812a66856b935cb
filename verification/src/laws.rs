//! Laws that hold of the matrices and of the forward pass, whatever the
//! arithmetic is, and laws that the arithmetic hands on to the matrices.

use crate::matrix::{lemma_cell_place, lemma_product_cell, Grid};
use crate::network::Net;
use crate::scalar::{Arith, Scalar};
use vstd::prelude::*;

verus! {

/// A second forward pass changes nothing: it finds the input row and the
/// parameters as the first found them, and so makes the same activations.
pub proof fn lemma_forward_twice<S: Scalar>(m: Arith<S>, net: Net<S>)
    requires
        net.a.len() > 0,
    ensures
        m.forwarded(m.forwarded(net)) == m.forwarded(net),
{
    let once = m.forwarded(net);
    let twice = m.forwarded(once);
    assert(once.a[0] == net.a[0]);
    assert(twice.a =~= once.a);
}

/// The forward pass depends on the input row and on the parameters, and on
/// nothing else: two networks that agree in these agree after it.
pub proof fn lemma_forward_by_input_and_parameters<S: Scalar>(m: Arith<S>, one: Net<S>, other: Net<S>)
    requires
        one.w == other.w,
        one.b == other.b,
        one.a.len() == other.a.len(),
        one.a.len() > 0,
        one.a[0] == other.a[0],
    ensures
        m.forwarded(one) == m.forwarded(other),
{
    assert(m.forwarded(one).a =~= m.forwarded(other).a);
}

/// Where the numbers can be added in either order, so can the matrices.
pub proof fn lemma_sum_commutes<S: Scalar>(m: Arith<S>, a: Grid<S>, b: Grid<S>)
    requires
        a.wf(),
        b.wf(),
        a.same_shape(b),
        forall|x: S, y: S| (#[trigger] (m.plus)(x, y)) == (m.plus)(y, x),
    ensures
        m.sum(a, b) == m.sum(b, a),
{
    assert(m.sum(a, b).cells =~= m.sum(b, a).cells);
}

/// Where sums of numbers can be grouped either way, so can sums of
/// matrices.
pub proof fn lemma_sum_associates<S: Scalar>(m: Arith<S>, a: Grid<S>, b: Grid<S>, c: Grid<S>)
    requires
        a.wf(),
        b.wf(),
        c.wf(),
        a.same_shape(b),
        b.same_shape(c),
        forall|x: S, y: S, z: S|
            (#[trigger] (m.plus)((m.plus)(x, y), z)) == (m.plus)(x, (m.plus)(y, z)),
    ensures
        m.sum(m.sum(a, b), c) == m.sum(a, m.sum(b, c)),
{
    assert(m.sum(m.sum(a, b), c).cells =~= m.sum(a, m.sum(b, c)).cells);
}

/// Where one times a number is that number, a matrix scaled by one is that
/// matrix.
pub proof fn lemma_scale_by_one<S: Scalar>(m: Arith<S>, a: Grid<S>)
    requires
        forall|x: S| (#[trigger] (m.times)(x, m.one())) == x,
    ensures
        m.scaled(a, m.one()) == a,
{
    assert(m.scaled(a, m.one()).cells =~= a.cells);
}

impl<S: Scalar> Arith<S> {
    /// The numbers are a semiring under these functions: sums can be taken
    /// in any order and grouping, zero adds nothing, products can be
    /// grouped either way and spread over sums, and zero times anything is
    /// zero.
    #[verifier::opaque]
    pub open spec fn is_semiring(self) -> bool {
        &&& forall|x: S, y: S| (#[trigger] (self.plus)(x, y)) == (self.plus)(y, x)
        &&& forall|x: S, y: S, z: S|
            (#[trigger] (self.plus)((self.plus)(x, y), z)) == (self.plus)(x, (self.plus)(y, z))
        &&& forall|x: S| (#[trigger] (self.plus)(self.zero(), x)) == x
        &&& forall|x: S, y: S, z: S|
            (#[trigger] (self.times)((self.times)(x, y), z)) == (self.times)(
                x,
                (self.times)(y, z),
            )
        &&& forall|x: S, y: S, z: S|
            (#[trigger] (self.times)(x, (self.plus)(y, z))) == (self.plus)(
                (self.times)(x, y),
                (self.times)(x, z),
            )
        &&& forall|x: S, y: S, z: S|
            (#[trigger] (self.times)((self.plus)(x, y), z)) == (self.plus)(
                (self.times)(x, z),
                (self.times)(y, z),
            )
        &&& forall|x: S| (#[trigger] (self.times)(self.zero(), x)) == self.zero()
        &&& forall|x: S| (#[trigger] (self.times)(x, self.zero())) == self.zero()
    }

    /// `f(0)`, ..., `f(n - 1)`, added up from zero.
    pub open spec fn total(self, f: spec_fn(int) -> S, n: nat) -> S
        decreases n,
    {
        if n == 0 {
            self.zero()
        } else {
            (self.plus)(self.total(f, (n - 1) as nat), f(n - 1))
        }
    }

    proof fn lemma_plus_zero(self, x: S)
        requires
            self.is_semiring(),
        ensures
            (self.plus)(self.zero(), x) == x,
            (self.plus)(x, self.zero()) == x,
    {
        reveal(Arith::is_semiring);
        assert((self.plus)(x, self.zero()) == (self.plus)(self.zero(), x));
    }

    /// `(u + v) + (x + y) == (u + x) + (v + y)`
    proof fn lemma_plus_swap_inner(self, u: S, v: S, x: S, y: S)
        requires
            self.is_semiring(),
        ensures
            (self.plus)((self.plus)(u, v), (self.plus)(x, y)) == (self.plus)(
                (self.plus)(u, x),
                (self.plus)(v, y),
            ),
    {
        reveal(Arith::is_semiring);
        let vxy = (self.plus)(v, (self.plus)(x, y));
        let xvy = (self.plus)(x, (self.plus)(v, y));
        assert((self.plus)((self.plus)(u, v), (self.plus)(x, y)) == (self.plus)(u, vxy));
        assert(vxy == (self.plus)((self.plus)(v, x), y));
        assert((self.plus)(v, x) == (self.plus)(x, v));
        assert((self.plus)((self.plus)(x, v), y) == xvy);
        assert((self.plus)((self.plus)(u, x), (self.plus)(v, y)) == (self.plus)(u, xvy));
    }

    proof fn lemma_times_spreads(self, x: S, y: S, z: S)
        requires
            self.is_semiring(),
        ensures
            (self.times)(x, (self.plus)(y, z)) == (self.plus)((self.times)(x, y), (self.times)(x, z)),
            (self.times)((self.plus)(x, y), z) == (self.plus)((self.times)(x, z), (self.times)(y, z)),
            (self.times)((self.times)(x, y), z) == (self.times)(x, (self.times)(y, z)),
            (self.times)(self.zero(), x) == self.zero(),
            (self.times)(x, self.zero()) == self.zero(),
    {
        reveal(Arith::is_semiring);
    }

    /// Totals of terms that are equal one by one are equal.
    pub proof fn lemma_total_of_equals(self, f: spec_fn(int) -> S, g: spec_fn(int) -> S, n: nat)
        requires
            forall|t: int| 0 <= t < n ==> #[trigger] f(t) == g(t),
        ensures
            self.total(f, n) == self.total(g, n),
        decreases n,
    {
        if n > 0 {
            self.lemma_total_of_equals(f, g, (n - 1) as nat);
            assert(f(n - 1) == g(n - 1));
        }
    }

    /// A total of zeros is zero.
    pub proof fn lemma_total_of_zeros(self, f: spec_fn(int) -> S, n: nat)
        requires
            self.is_semiring(),
            forall|t: int| 0 <= t < n ==> #[trigger] f(t) == self.zero(),
        ensures
            self.total(f, n) == self.zero(),
        decreases n,
    {
        if n > 0 {
            self.lemma_total_of_zeros(f, (n - 1) as nat);
            assert(f(n - 1) == self.zero());
            self.lemma_plus_zero(self.zero());
        }
    }

    /// The total of sums is the sum of the totals.
    pub proof fn lemma_total_of_sums(
        self,
        f: spec_fn(int) -> S,
        g: spec_fn(int) -> S,
        h: spec_fn(int) -> S,
        n: nat,
    )
        requires
            self.is_semiring(),
            forall|t: int| 0 <= t < n ==> #[trigger] h(t) == (self.plus)(f(t), g(t)),
        ensures
            self.total(h, n) == (self.plus)(self.total(f, n), self.total(g, n)),
        decreases n,
    {
        if n == 0 {
            self.lemma_plus_zero(self.zero());
        } else {
            self.lemma_total_of_sums(f, g, h, (n - 1) as nat);
            assert(h(n - 1) == (self.plus)(f(n - 1), g(n - 1)));
            self.lemma_plus_swap_inner(
                self.total(f, (n - 1) as nat),
                self.total(g, (n - 1) as nat),
                f(n - 1),
                g(n - 1),
            );
        }
    }

    /// A number times a total is the total of the number times each term.
    pub proof fn lemma_total_scaled_left(
        self,
        x: S,
        f: spec_fn(int) -> S,
        g: spec_fn(int) -> S,
        n: nat,
    )
        requires
            self.is_semiring(),
            forall|t: int| 0 <= t < n ==> #[trigger] g(t) == (self.times)(x, f(t)),
        ensures
            (self.times)(x, self.total(f, n)) == self.total(g, n),
        decreases n,
    {
        if n == 0 {
            self.lemma_times_spreads(x, x, x);
        } else {
            self.lemma_total_scaled_left(x, f, g, (n - 1) as nat);
            assert(g(n - 1) == (self.times)(x, f(n - 1)));
            self.lemma_times_spreads(x, self.total(f, (n - 1) as nat), f(n - 1));
        }
    }

    /// A total times a number is the total of each term times the number.
    pub proof fn lemma_total_scaled_right(
        self,
        f: spec_fn(int) -> S,
        x: S,
        g: spec_fn(int) -> S,
        n: nat,
    )
        requires
            self.is_semiring(),
            forall|t: int| 0 <= t < n ==> #[trigger] g(t) == (self.times)(f(t), x),
        ensures
            (self.times)(self.total(f, n), x) == self.total(g, n),
        decreases n,
    {
        if n == 0 {
            self.lemma_times_spreads(x, x, x);
        } else {
            self.lemma_total_scaled_right(f, x, g, (n - 1) as nat);
            assert(g(n - 1) == (self.times)(f(n - 1), x));
            self.lemma_times_spreads(self.total(f, (n - 1) as nat), f(n - 1), x);
        }
    }

    /// A table of numbers can be added up row by row or column by column.
    pub proof fn lemma_total_either_way(self, f: spec_fn(int, int) -> S, p: nat, q: nat)
        requires
            self.is_semiring(),
        ensures
            self.total(|t: int| self.total(|u: int| f(t, u), p), q) == self.total(
                |u: int| self.total(|t: int| f(t, u), q),
                p,
            ),
        decreases q,
    {
        let by_rows = |t: int| self.total(|u: int| f(t, u), p);
        let by_columns = |u: int| self.total(|t: int| f(t, u), q);
        if q == 0 {
            self.lemma_total_of_zeros(by_columns, p);
        } else {
            let fewer = |u: int| self.total(|t: int| f(t, u), (q - 1) as nat);
            let last = |u: int| f(q - 1, u);
            self.lemma_total_either_way(f, p, (q - 1) as nat);
            assert forall|u: int| 0 <= u < p implies #[trigger] by_columns(u) == (self.plus)(
                fewer(u),
                last(u),
            ) by {
                let column = |t: int| f(t, u);
                assert(by_columns(u) == self.total(column, q));
                assert(fewer(u) == self.total(column, (q - 1) as nat));
                assert(column(q - 1) == last(u));
            }
            self.lemma_total_of_sums(fewer, last, by_columns, p);
            assert(by_rows(q - 1) == self.total(last, p));
            assert(self.total(by_rows, (q - 1) as nat) == self.total(fewer, p));
        }
    }

    /// The inner product of a row and a column is the total of the products
    /// of their cells.
    pub proof fn lemma_inner_is_total(self, a: Grid<S>, r: int, b: Grid<S>, c: int, k: nat)
        ensures
            self.inner(a, r, b, c, k) == self.total(
                |t: int| (self.times)(a.at(r, t), b.at(t, c)),
                k,
            ),
        decreases k,
    {
        if k > 0 {
            self.lemma_inner_is_total(a, r, b, c, (k - 1) as nat);
        }
    }

    /// One cell of a product of three matrices, whichever product is taken
    /// first.
    proof fn lemma_product_associates_at(self, a: Grid<S>, b: Grid<S>, c: Grid<S>, r: int, s: int)
        requires
            self.is_semiring(),
            a.wf(),
            b.wf(),
            c.wf(),
            a.columns == b.rows,
            b.columns == c.rows,
            0 <= r < a.rows,
            0 <= s < c.columns,
        ensures
            self.product(self.product(a, b), c).at(r, s) == self.product(a, self.product(b, c)).at(
                r,
                s,
            ),
    {
        let p = a.columns;
        let q = b.columns;
        let ab = self.product(a, b);
        let bc = self.product(b, c);
        let triple = |t: int, u: int|
            (self.times)((self.times)(a.at(r, u), b.at(u, t)), c.at(t, s));
        // the product taken from the left
        let left_terms = |t: int| (self.times)(ab.at(r, t), c.at(t, s));
        let left_sums = |t: int| self.total(|u: int| triple(t, u), p);
        lemma_product_cell(self, ab, c, r as nat, s as nat);
        self.lemma_inner_is_total(ab, r, c, s, q);
        assert forall|t: int| 0 <= t < q implies #[trigger] left_terms(t) == left_sums(t) by {
            lemma_product_cell(self, a, b, r as nat, t as nat);
            self.lemma_inner_is_total(a, r, b, t, p);
            let row = |u: int| (self.times)(a.at(r, u), b.at(u, t));
            let scaled = |u: int| triple(t, u);
            assert forall|u: int| 0 <= u < p implies #[trigger] scaled(u) == (self.times)(
                row(u),
                c.at(t, s),
            ) by {}
            self.lemma_total_scaled_right(row, c.at(t, s), scaled, p);
            assert(ab.at(r, t) == self.total(row, p));
            assert(left_sums(t) == self.total(scaled, p));
        }
        self.lemma_total_of_equals(left_terms, left_sums, q);
        // the product taken from the right
        let right_terms = |u: int| (self.times)(a.at(r, u), bc.at(u, s));
        let right_sums = |u: int| self.total(|t: int| triple(t, u), q);
        lemma_product_cell(self, a, bc, r as nat, s as nat);
        self.lemma_inner_is_total(a, r, bc, s, p);
        assert forall|u: int| 0 <= u < p implies #[trigger] right_terms(u) == right_sums(u) by {
            lemma_product_cell(self, b, c, u as nat, s as nat);
            self.lemma_inner_is_total(b, u, c, s, q);
            let column = |t: int| (self.times)(b.at(u, t), c.at(t, s));
            let scaled = |t: int| triple(t, u);
            assert forall|t: int| 0 <= t < q implies #[trigger] scaled(t) == (self.times)(
                a.at(r, u),
                column(t),
            ) by {
                self.lemma_times_spreads(a.at(r, u), b.at(u, t), c.at(t, s));
            }
            self.lemma_total_scaled_left(a.at(r, u), column, scaled, q);
            assert(bc.at(u, s) == self.total(column, q));
            assert(right_sums(u) == self.total(scaled, q));
        }
        self.lemma_total_of_equals(right_terms, right_sums, p);
        // either way the same table is added up
        self.lemma_total_either_way(triple, p, q);
        assert(self.total(left_sums, q) == self.total(
            |t: int| self.total(|u: int| triple(t, u), p),
            q,
        ));
        assert(self.total(right_sums, p) == self.total(
            |u: int| self.total(|t: int| triple(t, u), q),
            p,
        ));
    }
}

/// Where the numbers are a semiring, a product of three matrices is the same
/// whichever product is taken first.
pub proof fn lemma_product_associates<S: Scalar>(m: Arith<S>, a: Grid<S>, b: Grid<S>, c: Grid<S>)
    requires
        m.is_semiring(),
        a.wf(),
        b.wf(),
        c.wf(),
        a.columns == b.rows,
        b.columns == c.rows,
    ensures
        m.product(m.product(a, b), c) == m.product(a, m.product(b, c)),
{
    let left = m.product(m.product(a, b), c);
    let right = m.product(a, m.product(b, c));
    assert forall|i: int| 0 <= i < left.cells.len() implies left.cells[i] == right.cells[i] by {
        lemma_cell_place(a.rows as int, c.columns as int, i);
        let r = i / (c.columns as int);
        let s = i % (c.columns as int);
        m.lemma_product_associates_at(a, b, c, r, s);
        assert(left.at(r, s) == left.cells[i]);
        assert(right.at(r, s) == right.cells[i]);
    }
    assert(left.cells =~= right.cells);
}

} // verus!
