//! Row-major layout of an `n` by `n` grid in a flat sequence, and the
//! perfect-square test that decides whether a flat sequence is such a grid.
use vstd::prelude::*;

verus! {

/// The cell at row `r`, column `c` of a row-major grid of width `n`.
pub open spec fn at<T>(s: Seq<T>, n: int, r: int, c: int) -> T {
    s[r * n + c]
}

/// `len` is the square of some natural number.
pub open spec fn is_square(len: nat) -> bool {
    exists|k: nat| #[trigger] (k * k) == len
}

/// A cell inside the grid has a flat index inside the sequence.
pub proof fn lemma_cell_in_bounds(n: int, r: int, c: int)
    requires
        0 <= r < n,
        0 <= c < n,
    ensures
        0 <= r * n + c < n * n,
        0 <= r * n,
{
    assert(0 <= r * n + c < n * n) by (nonlinear_arith)
        requires
            0 <= r < n,
            0 <= c < n,
    ;
    assert(0 <= r * n) by (nonlinear_arith)
        requires
            0 <= r < n,
    ;
}

/// Two different cells of the grid have different flat indices.
pub proof fn lemma_cells_distinct(n: int, r1: int, c1: int, r2: int, c2: int)
    requires
        0 <= r1 < n,
        0 <= c1 < n,
        0 <= r2 < n,
        0 <= c2 < n,
        r1 != r2 || c1 != c2,
    ensures
        r1 * n + c1 != r2 * n + c2,
{
    if r1 == r2 {
    } else if r1 < r2 {
        assert(r1 * n + c1 < r2 * n + c2) by (nonlinear_arith)
            requires
                r1 < r2,
                0 <= c1 < n,
                0 <= c2,
        ;
    } else {
        assert(r2 * n + c2 < r1 * n + c1) by (nonlinear_arith)
            requires
                r2 < r1,
                0 <= c2 < n,
                0 <= c1,
        ;
    }
}

/// Every flat index of the grid is the index of some cell.
pub proof fn lemma_index_is_cell(n: int, idx: int)
    requires
        0 <= n,
        0 <= idx < n * n,
    ensures
        0 <= idx / n < n,
        0 <= idx % n < n,
        idx == (idx / n) * n + idx % n,
{
    assert(n > 0) by (nonlinear_arith)
        requires
            0 <= n,
            0 <= idx < n * n,
    ;
    vstd::arithmetic::div_mod::lemma_fundamental_div_mod(idx, n);
    vstd::arithmetic::mul::lemma_mul_is_commutative(n, idx / n);
    vstd::arithmetic::div_mod::lemma_div_pos_is_pos(idx, n);
    vstd::arithmetic::div_mod::lemma_mod_pos_bound(idx, n);
    assert(idx / n < n) by (nonlinear_arith)
        requires
            idx == (idx / n) * n + idx % n,
            0 <= idx % n,
            idx < n * n,
            n > 0,
    ;
}

/// Writing one cell of the grid leaves every other cell as it was.
pub proof fn lemma_set_cell<T>(before: Seq<T>, after: Seq<T>, n: int, r0: int, c0: int, v: T)
    requires
        before.len() == n * n,
        0 <= r0 < n,
        0 <= c0 < n,
        after == before.update(r0 * n + c0, v),
    ensures
        after.len() == before.len(),
        forall|r: int, c: int|
            0 <= r < n && 0 <= c < n ==> #[trigger] at(after, n, r, c) == if r == r0 && c == c0 {
                v
            } else {
                at(before, n, r, c)
            },
{
    lemma_cell_in_bounds(n, r0, c0);
    assert forall|r: int, c: int| 0 <= r < n && 0 <= c < n implies #[trigger] at(after, n, r, c)
        == if r == r0 && c == c0 {
        v
    } else {
        at(before, n, r, c)
    } by {
        lemma_cell_in_bounds(n, r, c);
        if r != r0 || c != c0 {
            lemma_cells_distinct(n, r, c, r0, c0);
        }
    }
}

/// Two grids that agree on every cell are the same sequence.
pub proof fn lemma_same_cells<T>(a: Seq<T>, b: Seq<T>, n: int)
    requires
        0 <= n,
        a.len() == n * n,
        b.len() == n * n,
        forall|r: int, c: int| 0 <= r < n && 0 <= c < n ==> #[trigger] at(a, n, r, c) == at(b, n, r, c),
    ensures
        a == b,
{
    assert forall|idx: int| 0 <= idx < a.len() implies a[idx] == b[idx] by {
        lemma_index_is_cell(n, idx);
        assert(at(a, n, idx / n, idx % n) == at(b, n, idx / n, idx % n));
    }
    assert(a =~= b);
}

proof fn lemma_no_root_between(n: nat, len: nat, k: nat)
    requires
        n * n < len,
        len < (n + 1) * (n + 1),
    ensures
        k * k != len,
{
    if k <= n {
        assert(k * k <= n * n) by (nonlinear_arith)
            requires
                k <= n,
        ;
    } else {
        assert(k * k >= (n + 1) * (n + 1)) by (nonlinear_arith)
            requires
                k >= n + 1,
        ;
    }
}

/// The side of a square grid with `len` cells: `Some(n)` with `n * n == len`
/// when `len` is a perfect square, `None` otherwise.
pub fn exact_square_root(len: usize) -> (r: Option<usize>)
    ensures
        r is Some <==> is_square(len as nat),
        r matches Some(n) ==> n * n == len,
{
    let mut n: usize = 0;
    loop
        invariant
            n * n <= len,
            n <= len,
        ensures
            n * n <= len,
            len < (n + 1) * (n + 1),
        decreases len - n,
    {
        assert(n < usize::MAX) by (nonlinear_arith)
            requires
                n * n <= len,
                len <= usize::MAX,
        ;
        let next = n + 1;
        match next.checked_mul(next) {
            Some(sq) => {
                if sq <= len {
                    assert(next <= sq) by (nonlinear_arith)
                        requires
                            sq == next * next,
                            next >= 1,
                    ;
                    n = next;
                } else {
                    break ;
                }
            },
            None => {
                break ;
            },
        }
    }
    if n * n == len {
        assert(is_square(len as nat)) by {
            assert((n as nat) * (n as nat) == len as nat);
        }
        Some(n)
    } else {
        assert forall|k: nat| #[trigger] (k * k) != len as nat by {
            lemma_no_root_between(n as nat, len as nat, k);
        }
        None
    }
}

} // verus!
