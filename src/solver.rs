//! Gauss-Jordan elimination on a `Matrix` and a right-hand side: a forward
//! pass that normalises each row, clears the column below it and pivots the
//! next column, then a backward pass that clears each column above the
//! diagonal, then the identity-form test.
use core::ops::{Div, Mul, Sub};
use vstd::prelude::*;
use vstd::std_specs::cmp::{PartialEqSpec, PartialOrdSpec};
use vstd::std_specs::convert::FromSpec;
use vstd::std_specs::ops::{DivSpec, MulSpec, SubSpec};

use crate::layout::{at, lemma_cell_in_bounds, lemma_same_cells, lemma_set_cell};
use crate::matrix::{is_identity, lowest_row, rows_exchanged, Matrix};

verus! {

/// The scalar's division, subtraction and multiplication are defined on every
/// pair of values, as they are on floating-point numbers.
pub open spec fn ops_total<T: Div<Output = T> + Sub<Output = T> + Mul<Output = T>>() -> bool {
    &&& forall|x: T, y: T| #[trigger] x.div_req(y)
    &&& forall|x: T, y: T| #[trigger] x.sub_req(y)
    &&& forall|x: T, y: T| #[trigger] x.mul_req(y)
}

/// The scalar's arithmetic, equality, ordering and conversion from `u8`
/// follow their spec functions.
pub open spec fn ops_follow_spec<T: Div<Output = T> + Sub<Output = T> + Mul<Output = T> + PartialOrd + From<u8>>() -> bool {
    &&& T::obeys_div_spec()
    &&& T::obeys_sub_spec()
    &&& T::obeys_mul_spec()
    &&& T::obeys_eq_spec()
    &&& T::obeys_from_spec()
    &&& T::obeys_partial_cmp_spec()
}

/// `x` is finite: `x - x` is zero, which fails for an infinite value and for
/// a value that is not a number.
pub open spec fn is_finite<T: Sub<Output = T> + PartialEq + From<u8>>(x: T) -> bool {
    x.sub_spec(x).eq_spec(&T::from_spec(0u8))
}

/// `new` and `old` agree on every cell but those of row `row` from column
/// `from` on.
pub open spec fn same_outside<T>(new: Seq<T>, old: Seq<T>, n: int, row: int, from: int) -> bool {
    &&& new.len() == old.len()
    &&& forall|r: int, c: int|
        0 <= r < n && 0 <= c < n && (r != row || c < from) ==> #[trigger] at(new, n, r, c) == at(
            old,
            n,
            r,
            c,
        )
}

/// `new` is `old` with row `i`, from column `i` on, divided by the pivot
/// `old[i][i]`.
pub open spec fn row_normalized<T: Div<Output = T>>(new: Seq<T>, old: Seq<T>, n: int, i: int) -> bool {
    &&& same_outside(new, old, n, i, i)
    &&& forall|c: int|
        i <= c < n ==> #[trigger] at(new, n, i, c) == at(old, n, i, c).div_spec(at(old, n, i, i))
}

/// `new` is `old` with row `j`, from column `i` on, less `old[j][i]` times
/// row `i`.
pub open spec fn row_reduced<T: Sub<Output = T> + Mul<Output = T>>(
    new: Seq<T>,
    old: Seq<T>,
    n: int,
    i: int,
    j: int,
) -> bool {
    &&& same_outside(new, old, n, j, i)
    &&& forall|c: int|
        i <= c < n ==> #[trigger] at(new, n, j, c) == at(old, n, j, c).sub_spec(
            at(old, n, i, c).mul_spec(at(old, n, j, i)),
        )
}

/// `new` is `old` with the cell `[j][i]` of each row `j` above row `i` less
/// `old[i][i]` times itself, and every other cell kept.
pub open spec fn column_cleared_above<T: Sub<Output = T> + Mul<Output = T>>(
    new: Seq<T>,
    old: Seq<T>,
    n: int,
    i: int,
) -> bool {
    &&& new.len() == old.len()
    &&& forall|r: int, c: int|
        0 <= r < n && 0 <= c < n ==> #[trigger] at(new, n, r, c) == if r < i && c == i {
            at(old, n, r, i).sub_spec(at(old, n, i, i).mul_spec(at(old, n, r, i)))
        } else {
            at(old, n, r, c)
        }
}

/// The matrix after row `i` is normalised.
pub open spec fn normalized<T: Div<Output = T>>(s: Seq<T>, n: int, i: int) -> Seq<T> {
    choose|t: Seq<T>| row_normalized(t, s, n, i)
}

/// The matrix after row `j` is reduced by row `i`.
pub open spec fn reduced<T: Sub<Output = T> + Mul<Output = T>>(s: Seq<T>, n: int, i: int, j: int) -> Seq<T> {
    choose|t: Seq<T>| row_reduced(t, s, n, i, j)
}

/// The matrix after rows `a` and `k` are exchanged from column `a` on.
pub open spec fn exchanged<T>(s: Seq<T>, n: int, a: int, k: int) -> Seq<T> {
    choose|t: Seq<T>| rows_exchanged(t, s, n, a, k, a)
}

/// The matrix after column `i` is cleared above the diagonal.
pub open spec fn cleared<T: Sub<Output = T> + Mul<Output = T>>(s: Seq<T>, n: int, i: int) -> Seq<T> {
    choose|t: Seq<T>| column_cleared_above(t, s, n, i)
}

/// The right-hand side after column `i` is cleared above the diagonal of `s`.
pub open spec fn cleared_rhs<T: Sub<Output = T> + Mul<Output = T>>(b: Seq<T>, s: Seq<T>, n: int, i: int) -> Seq<T> {
    Seq::new(
        b.len(),
        |k: int|
            if k < i {
                b[k].sub_spec(b[i].mul_spec(at(s, n, k, i)))
            } else {
                b[k]
            },
    )
}

/// Matrix and right-hand side after rows `i + 1 .. end` are each reduced by
/// row `i`, in order.
pub open spec fn reduced_below<T: Sub<Output = T> + Mul<Output = T>>(
    s: Seq<T>,
    b: Seq<T>,
    n: int,
    i: int,
    end: int,
) -> (Seq<T>, Seq<T>)
    decreases end - i,
{
    if end <= i + 1 {
        (s, b)
    } else {
        let prev = reduced_below(s, b, n, i, end - 1);
        let j = end - 1;
        (
            reduced(prev.0, n, i, j),
            prev.1.update(j, prev.1[j].sub_spec(prev.1[i].mul_spec(at(prev.0, n, j, i)))),
        )
    }
}

/// One round of the forward pass on row `i`: normalise it, reduce the rows
/// below by it, then (but for the last row) pivot column `i + 1`.
pub open spec fn forward_round<T: Copy + PartialOrd + Div<Output = T> + Sub<Output = T> + Mul<Output = T>>(
    s: Seq<T>,
    b: Seq<T>,
    n: int,
    i: int,
) -> (Seq<T>, Seq<T>) {
    let s1 = normalized(s, n, i);
    let b1 = b.update(i, b[i].div_spec(at(s, n, i, i)));
    let r = reduced_below(s1, b1, n, i, n);
    if i + 1 < n {
        let k = lowest_row(r.0, n, i + 1, n);
        (exchanged(r.0, n, i + 1, k), r.1.update(i + 1, r.1[k]).update(k, r.1[i + 1]))
    } else {
        r
    }
}

/// Matrix and right-hand side after the first `i` rounds of the forward pass.
pub open spec fn forward<T: Copy + PartialOrd + Div<Output = T> + Sub<Output = T> + Mul<Output = T>>(
    s: Seq<T>,
    b: Seq<T>,
    n: int,
    i: int,
) -> (Seq<T>, Seq<T>)
    decreases i,
{
    if i <= 0 {
        (s, b)
    } else {
        let prev = forward(s, b, n, i - 1);
        forward_round(prev.0, prev.1, n, i - 1)
    }
}

/// Matrix and right-hand side after the backward pass has handled rows
/// `n - 1` down to `i`, or `None` once it met a right-hand side value that is
/// not finite.
pub open spec fn backward<T: Copy + PartialOrd + From<u8> + Sub<Output = T> + Mul<Output = T>>(
    s: Seq<T>,
    b: Seq<T>,
    n: int,
    i: int,
) -> Option<(Seq<T>, Seq<T>)>
    decreases n - i,
{
    if i >= n {
        Some((s, b))
    } else {
        match backward(s, b, n, i + 1) {
            None => None,
            Some(prev) => if is_finite(prev.1[i]) {
                Some((cleared(prev.0, n, i), cleared_rhs(prev.1, prev.0, n, i)))
            } else {
                None
            },
        }
    }
}

/// What solving the system `s`, `b` of dimension `n` gives: `None` on a
/// length mismatch, when the backward pass meets a value that is not finite,
/// or when the matrix does not end as the identity; otherwise the final
/// right-hand side.
pub open spec fn solution<T: Copy + PartialOrd + From<u8> + Div<Output = T> + Sub<Output = T> + Mul<Output = T>>(
    s: Seq<T>,
    b: Seq<T>,
    n: int,
) -> Option<Seq<T>> {
    if b.len() != n {
        None
    } else {
        let f = forward(s, b, n, n);
        match backward(f.0, f.1, n, 0) {
            None => None,
            Some(e) => if is_identity(e.0, n) {
                Some(e.1)
            } else {
                None
            },
        }
    }
}

proof fn lemma_normalized<T: Div<Output = T>>(t: Seq<T>, s: Seq<T>, n: int, i: int)
    requires
        0 <= n,
        s.len() == n * n,
        row_normalized(t, s, n, i),
    ensures
        t == normalized(s, n, i),
{
    let u = normalized(s, n, i);
    assert(row_normalized(u, s, n, i));
    lemma_same_cells(t, u, n);
}

proof fn lemma_reduced<T: Sub<Output = T> + Mul<Output = T>>(t: Seq<T>, s: Seq<T>, n: int, i: int, j: int)
    requires
        0 <= n,
        s.len() == n * n,
        row_reduced(t, s, n, i, j),
    ensures
        t == reduced(s, n, i, j),
{
    let u = reduced(s, n, i, j);
    assert(row_reduced(u, s, n, i, j));
    lemma_same_cells(t, u, n);
}

proof fn lemma_exchanged<T>(t: Seq<T>, s: Seq<T>, n: int, a: int, k: int)
    requires
        0 <= n,
        s.len() == n * n,
        rows_exchanged(t, s, n, a, k, a),
    ensures
        t == exchanged(s, n, a, k),
{
    let u = exchanged(s, n, a, k);
    assert(rows_exchanged(u, s, n, a, k, a));
    lemma_same_cells(t, u, n);
}

proof fn lemma_cleared<T: Sub<Output = T> + Mul<Output = T>>(t: Seq<T>, s: Seq<T>, n: int, i: int)
    requires
        0 <= n,
        s.len() == n * n,
        column_cleared_above(t, s, n, i),
    ensures
        t == cleared(s, n, i),
{
    let u = cleared(s, n, i);
    assert(column_cleared_above(u, s, n, i));
    lemma_same_cells(t, u, n);
}

proof fn lemma_backward_stays_none<T: Copy + PartialOrd + From<u8> + Sub<Output = T> + Mul<Output = T>>(
    s: Seq<T>,
    b: Seq<T>,
    n: int,
    lo: int,
    i: int,
)
    requires
        lo <= i,
        backward(s, b, n, i) is None,
    ensures
        backward(s, b, n, lo) is None,
    decreases i - lo,
{
    if lo < i {
        lemma_backward_stays_none(s, b, n, lo + 1, i);
    }
}

impl<T: Copy + PartialOrd + From<u8> + Div<Output = T> + Sub<Output = T> + Mul<Output = T>> Matrix<T> {
    /// Divides row `i` from column `i` on, and `b[i]`, by the pivot `[i][i]`.
    fn normalize_row(&mut self, i: usize, b: &mut Vec<T>)
        requires
            old(self).wf(),
            i < old(self).dim(),
            old(b)@.len() == old(self).dim(),
            ops_total::<T>(),
        ensures
            final(self).wf(),
            final(self).dim() == old(self).dim(),
            same_outside(final(self).entries(), old(self).entries(), old(self).dim() as int, i as int, i as int),
            T::obeys_div_spec() ==> row_normalized(
                final(self).entries(),
                old(self).entries(),
                old(self).dim() as int,
                i as int,
            ),
            final(b)@.len() == old(b)@.len(),
            forall|k: int| 0 <= k < old(b)@.len() && k != i ==> #[trigger] final(b)@[k] == old(b)@[k],
            T::obeys_div_spec() ==> final(b)@[i as int] == old(b)@[i as int].div_spec(
                at(old(self).entries(), old(self).dim() as int, i as int, i as int),
            ),
    {
        let n = self.dimension();
        let ghost ni = n as int;
        let ghost s = self.entries();
        let len = self.vals().len();
        proof {
            lemma_cell_in_bounds(ni, i as int, i as int);
        }
        let one = self.vals()[i * n + i];
        let mut j = i;
        while j < n
            invariant
                self.wf(),
                self.dim() == n,
                ni == n,
                len == s.len(),
                s.len() == ni * ni,
                i <= j <= n,
                i < n,
                one == at(s, ni, i as int, i as int),
                ops_total::<T>(),
                same_outside(self.entries(), s, ni, i as int, i as int),
                forall|c: int| j <= c < n ==> #[trigger] at(self.entries(), ni, i as int, c) == at(s, ni, i as int, c),
                T::obeys_div_spec() ==> forall|c: int|
                    i <= c < j ==> #[trigger] at(self.entries(), ni, i as int, c) == at(s, ni, i as int, c).div_spec(one),
            decreases n - j,
        {
            proof {
                lemma_cell_in_bounds(ni, i as int, j as int);
            }
            let ghost before = self.entries();
            let v = self.vals()[i * n + j];
            assert(v == at(s, ni, i as int, j as int)) by {
                assert(at(before, ni, i as int, j as int) == at(s, ni, i as int, j as int));
            }
            let q = v / one;
            self.set_cell(i * n + j, q);
            proof {
                lemma_set_cell(before, self.entries(), ni, i as int, j as int, q);
            }
            j += 1;
        }
        let bi = b[i];
        b.set(i, bi / one);
    }
    /// Subtracts `[j][i]` times row `i` from row `j`, from column `i` on, and
    /// `b[i]` times the same factor from `b[j]`.
    fn eliminate_row(&mut self, i: usize, j: usize, b: &mut Vec<T>)
        requires
            old(self).wf(),
            i < j < old(self).dim(),
            old(b)@.len() == old(self).dim(),
            ops_total::<T>(),
        ensures
            final(self).wf(),
            final(self).dim() == old(self).dim(),
            same_outside(final(self).entries(), old(self).entries(), old(self).dim() as int, j as int, i as int),
            T::obeys_sub_spec() && T::obeys_mul_spec() ==> row_reduced(
                final(self).entries(),
                old(self).entries(),
                old(self).dim() as int,
                i as int,
                j as int,
            ),
            final(b)@.len() == old(b)@.len(),
            forall|k: int| 0 <= k < old(b)@.len() && k != j ==> #[trigger] final(b)@[k] == old(b)@[k],
            T::obeys_sub_spec() && T::obeys_mul_spec() ==> final(b)@[j as int] == old(b)@[j as int].sub_spec(
                old(b)@[i as int].mul_spec(at(old(self).entries(), old(self).dim() as int, j as int, i as int)),
            ),
    {
        let n = self.dimension();
        let ghost ni = n as int;
        let ghost s = self.entries();
        let len = self.vals().len();
        proof {
            lemma_cell_in_bounds(ni, j as int, i as int);
        }
        let val_to_multiply = self.vals()[j * n + i];
        let mut k = i;
        while k < n
            invariant
                self.wf(),
                self.dim() == n,
                ni == n,
                len == s.len(),
                s.len() == ni * ni,
                i <= k <= n,
                i < j < n,
                val_to_multiply == at(s, ni, j as int, i as int),
                ops_total::<T>(),
                same_outside(self.entries(), s, ni, j as int, i as int),
                forall|c: int| k <= c < n ==> #[trigger] at(self.entries(), ni, j as int, c) == at(s, ni, j as int, c),
                T::obeys_sub_spec() && T::obeys_mul_spec() ==> forall|c: int|
                    i <= c < k ==> #[trigger] at(self.entries(), ni, j as int, c) == at(s, ni, j as int, c).sub_spec(
                        at(s, ni, i as int, c).mul_spec(val_to_multiply),
                    ),
            decreases n - k,
        {
            proof {
                lemma_cell_in_bounds(ni, i as int, k as int);
                lemma_cell_in_bounds(ni, j as int, k as int);
            }
            let ghost before = self.entries();
            let upper = self.vals()[i * n + k];
            let v = self.vals()[j * n + k];
            assert(upper == at(s, ni, i as int, k as int)) by {
                assert(at(before, ni, i as int, k as int) == at(s, ni, i as int, k as int));
            }
            assert(v == at(s, ni, j as int, k as int)) by {
                assert(at(before, ni, j as int, k as int) == at(s, ni, j as int, k as int));
            }
            let value_to_subtract = upper * val_to_multiply;
            let q = v - value_to_subtract;
            self.set_cell(j * n + k, q);
            proof {
                lemma_set_cell(before, self.entries(), ni, j as int, k as int, q);
            }
            k += 1;
        }
        let bi = b[i];
        let bj = b[j];
        b.set(j, bj - bi * val_to_multiply);
    }

    /// Clears column `i` above the diagonal in the backward pass: for each row
    /// `j` above `i`, with `f` the value `[j][i]`, sets `[j][i]` to
    /// `[j][i] - [i][i] * f` and `b[j]` to `b[j] - b[i] * f`.
    fn clear_column_above(&mut self, i: usize, b: &mut Vec<T>)
        requires
            old(self).wf(),
            i < old(self).dim(),
            old(b)@.len() == old(self).dim(),
            ops_total::<T>(),
        ensures
            final(self).wf(),
            final(self).dim() == old(self).dim(),
            final(self).entries().len() == old(self).entries().len(),
            forall|r: int, c: int|
                0 <= r < old(self).dim() && 0 <= c < old(self).dim() && (r >= i || c != i)
                    ==> #[trigger] at(final(self).entries(), old(self).dim() as int, r, c) == at(
                    old(self).entries(),
                    old(self).dim() as int,
                    r,
                    c,
                ),
            T::obeys_sub_spec() && T::obeys_mul_spec() ==> column_cleared_above(
                final(self).entries(),
                old(self).entries(),
                old(self).dim() as int,
                i as int,
            ),
            final(b)@.len() == old(b)@.len(),
            forall|k: int| i <= k < old(b)@.len() ==> #[trigger] final(b)@[k] == old(b)@[k],
            T::obeys_sub_spec() && T::obeys_mul_spec() ==> forall|k: int|
                0 <= k < i ==> #[trigger] final(b)@[k] == old(b)@[k].sub_spec(
                    old(b)@[i as int].mul_spec(at(old(self).entries(), old(self).dim() as int, k, i as int)),
                ),
    {
        let n = self.dimension();
        let ghost ni = n as int;
        let ghost s = self.entries();
        let ghost b0 = b@;
        let len = self.vals().len();
        proof {
            lemma_cell_in_bounds(ni, i as int, i as int);
        }
        let diagonal = self.vals()[i * n + i];
        let bi = b[i];
        let mut j: usize = 0;
        while j < i
            invariant
                self.wf(),
                self.dim() == n,
                ni == n,
                len == s.len(),
                s.len() == ni * ni,
                j <= i < n,
                diagonal == at(s, ni, i as int, i as int),
                b@.len() == n,
                b0.len() == n,
                bi == b0[i as int],
                ops_total::<T>(),
                self.entries().len() == s.len(),
                forall|r: int, c: int|
                    0 <= r < ni && 0 <= c < ni && (r >= j || c != i) ==> #[trigger] at(self.entries(), ni, r, c)
                        == at(s, ni, r, c),
                T::obeys_sub_spec() && T::obeys_mul_spec() ==> forall|r: int|
                    0 <= r < j ==> #[trigger] at(self.entries(), ni, r, i as int) == at(s, ni, r, i as int).sub_spec(
                        diagonal.mul_spec(at(s, ni, r, i as int)),
                    ),
                forall|k: int| j <= k < n ==> #[trigger] b@[k] == b0[k],
                T::obeys_sub_spec() && T::obeys_mul_spec() ==> forall|k: int|
                    0 <= k < j ==> #[trigger] b@[k] == b0[k].sub_spec(bi.mul_spec(at(s, ni, k, i as int))),
            decreases i - j,
        {
            proof {
                lemma_cell_in_bounds(ni, j as int, i as int);
            }
            let ghost before = self.entries();
            let val_to_multiply = self.vals()[j * n + i];
            assert(val_to_multiply == at(s, ni, j as int, i as int)) by {
                assert(at(before, ni, j as int, i as int) == at(s, ni, j as int, i as int));
            }
            let q = val_to_multiply - diagonal * val_to_multiply;
            self.set_cell(j * n + i, q);
            proof {
                lemma_set_cell(before, self.entries(), ni, j as int, i as int, q);
            }
            let bj = b[j];
            b.set(j, bj - bi * val_to_multiply);
            j += 1;
        }
        proof {
            if T::obeys_sub_spec() && T::obeys_mul_spec() {
                assert forall|r: int, c: int| 0 <= r < ni && 0 <= c < ni implies #[trigger] at(
                    self.entries(),
                    ni,
                    r,
                    c,
                ) == if r < i && c == i {
                    at(s, ni, r, i as int).sub_spec(at(s, ni, i as int, i as int).mul_spec(at(s, ni, r, i as int)))
                } else {
                    at(s, ni, r, c)
                } by {
                    if r < i && c == i {
                        assert(at(self.entries(), ni, r, i as int) == at(s, ni, r, i as int).sub_spec(
                            diagonal.mul_spec(at(s, ni, r, i as int))));
                    }
                }
            }
        }
    }
    /// Solves the system whose coefficients are this matrix and whose
    /// right-hand side is `b`, working on the matrix in place.
    ///
    /// A `b` whose length is not the dimension gives `None` and leaves the
    /// matrix as it was. Otherwise the forward pass, for each row `i` in
    /// order, divides row `i` by its pivot, subtracts it from each row below,
    /// and (but for the last row) brings up the row with the least value in
    /// column `i + 1`. The backward pass, for each row `i` from the last, gives
    /// `None` if `b[i]` is not finite and clears column `i` above the diagonal.
    /// The result is `None` unless the matrix then is exactly the identity, and
    /// otherwise the final `b`: one finite value per row.
    pub fn solve(&mut self, b: Vec<T>) -> (r: Option<Vec<T>>)
        requires
            old(self).wf(),
            ops_total::<T>(),
        ensures
            final(self).wf(),
            final(self).dim() == old(self).dim(),
            b@.len() != old(self).dim() ==> r is None && final(self).entries() == old(self).entries(),
            r matches Some(x) ==> x@.len() == old(self).dim(),
            ops_follow_spec::<T>() ==> (match solution(old(self).entries(), b@, old(self).dim() as int) {
                None => r is None,
                Some(x) => r matches Some(v) && v@ == x,
            }),
            ops_follow_spec::<T>() && r is Some ==> is_identity(
                final(self).entries(),
                final(self).dim() as int,
            ),
            ops_follow_spec::<T>() ==> (r matches Some(x) ==> forall|k: int|
                0 <= k < x@.len() ==> is_finite(#[trigger] x@[k])),
    {
        let n = self.dimension();
        if n != b.len() {
            return None;
        }
        let ghost ni = n as int;
        let ghost s0 = self.entries();
        let mut rhs = b;
        let mut i: usize = 0;
        while i < n
            invariant
                self.wf(),
                self.dim() == n,
                ni == n,
                rhs@.len() == n,
                b@.len() == n,
                s0 == old(self).entries(),
                i <= n,
                ops_total::<T>(),
                ops_follow_spec::<T>() ==> (self.entries(), rhs@) == forward(s0, b@, ni, i as int),
            decreases n - i,
        {
            let ghost sp = self.entries();
            let ghost bp = rhs@;
            self.normalize_row(i, &mut rhs);
            let ghost s1 = self.entries();
            let ghost b1 = rhs@;
            proof {
                if ops_follow_spec::<T>() {
                    lemma_normalized(s1, sp, ni, i as int);
                    assert(b1 =~= bp.update(i as int, bp[i as int].div_spec(at(sp, ni, i as int, i as int))));
                }
            }
            let mut j = i + 1;
            while j < n
                invariant
                    self.wf(),
                    self.dim() == n,
                    ni == n,
                    rhs@.len() == n,
                    i < j <= n,
                    ops_total::<T>(),
                    ops_follow_spec::<T>() ==> (self.entries(), rhs@) == reduced_below(
                        s1,
                        b1,
                        ni,
                        i as int,
                        j as int,
                    ),
                decreases n - j,
            {
                let ghost sq = self.entries();
                let ghost bq = rhs@;
                self.eliminate_row(i, j, &mut rhs);
                proof {
                    if ops_follow_spec::<T>() {
                        lemma_reduced(self.entries(), sq, ni, i as int, j as int);
                        assert(rhs@ =~= bq.update(
                            j as int,
                            bq[j as int].sub_spec(bq[i as int].mul_spec(at(sq, ni, j as int, i as int))),
                        ));
                    }
                }
                j += 1;
            }
            if i + 1 < n {
                let ghost sr = self.entries();
                self.pivot_rows(i + 1, &mut rhs);
                proof {
                    if ops_follow_spec::<T>() {
                        let k = lowest_row(sr, ni, i + 1, ni);
                        lemma_exchanged(self.entries(), sr, ni, i + 1, k);
                    }
                }
            }
            i += 1;
        }
        // Once row `i` is resolved, later steps only change `rhs` above it, so
        // at the end `rhs` holds the solution.
        let ghost sf = self.entries();
        let ghost bf = rhs@;
        let mut i: usize = n;
        while i > 0
            invariant
                self.wf(),
                self.dim() == n,
                ni == n,
                rhs@.len() == n,
                b@.len() == n,
                old(self).dim() == n,
                s0 == old(self).entries(),
                i <= n,
                ops_total::<T>(),
                ops_follow_spec::<T>() ==> (sf, bf) == forward(s0, b@, ni, ni),
                ops_follow_spec::<T>() ==> backward(sf, bf, ni, i as int) == Some((self.entries(), rhs@)),
                ops_follow_spec::<T>() ==> forall|k: int| i <= k < n ==> is_finite(#[trigger] rhs@[k]),
            decreases i,
        {
            i -= 1;
            let ghost sc = self.entries();
            let ghost bc = rhs@;
            if !is_finite_value(rhs[i]) {
                proof {
                    if ops_follow_spec::<T>() {
                        lemma_backward_stays_none(sf, bf, ni, 0, i as int);
                    }
                }
                return None;
            }
            self.clear_column_above(i, &mut rhs);
            proof {
                if ops_follow_spec::<T>() {
                    lemma_cleared(self.entries(), sc, ni, i as int);
                    assert(rhs@ =~= cleared_rhs(bc, sc, ni, i as int));
                }
            }
        }
        if !self.is_identity_form() {
            return None;
        }
        Some(rhs)
    }
}

/// Solves the system with coefficients `m` and right-hand side `b`, as
/// `Matrix::solve` does, on a matrix that the call owns.
pub fn solve<T: Copy + PartialOrd + From<u8> + Div<Output = T> + Sub<Output = T> + Mul<Output = T>>(
    m: Matrix<T>,
    b: Vec<T>,
) -> (r: Option<Vec<T>>)
    requires
        m.wf(),
        ops_total::<T>(),
    ensures
        b@.len() != m.dim() ==> r is None,
        r matches Some(x) ==> x@.len() == m.dim(),
        ops_follow_spec::<T>() ==> (match solution(m.entries(), b@, m.dim() as int) {
            None => r is None,
            Some(x) => r matches Some(v) && v@ == x,
        }),
        ops_follow_spec::<T>() ==> (r matches Some(x) ==> forall|k: int|
            0 <= k < x@.len() ==> is_finite(#[trigger] x@[k])),
{
    let mut m = m;
    m.solve(b)
}

/// Whether `x` is finite, tested as `x - x == 0`.
fn is_finite_value<T: Copy + PartialEq + From<u8> + Sub<Output = T>>(x: T) -> (r: bool)
    requires
        forall|a: T, c: T| #[trigger] a.sub_req(c),
    ensures
        T::obeys_sub_spec() && T::obeys_eq_spec() && T::obeys_from_spec() ==> r == is_finite(x),
{
    let d = x - x;
    d == T::from(0u8)
}

} // verus!
