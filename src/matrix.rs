//! The square matrix type: construction from a flat row-major sequence, the
//! pivot step that reorders rows, and the identity-form test.
use core::cmp::Ordering;
use vstd::prelude::*;
use vstd::std_specs::cmp::{PartialEqSpec, PartialOrdSpec};
use vstd::std_specs::convert::FromSpec;

use crate::row_input::chars_of;
use crate::layout::{
    at, exact_square_root, is_square, lemma_cell_in_bounds, lemma_cells_distinct,
};

verus! {

/// An `n` by `n` matrix, held as `n * n` values in row-major order: the value
/// at row `i`, column `j` sits at index `i * n + j`.
pub struct Matrix<T> {
    vals: Vec<T>,
    dimension: usize,
}

/// The row that the pivot step brings up for column `c`: scanning rows
/// `c + 1 .. end` in order, a row replaces the current choice only when its
/// value in column `c` is strictly less, so ties keep the earlier row.
pub open spec fn lowest_row<T: PartialOrd>(s: Seq<T>, n: int, c: int, end: int) -> int
    decreases end - c,
{
    if end <= c + 1 {
        c
    } else {
        let k = lowest_row(s, n, c, end - 1);
        if at(s, n, end - 1, c).partial_cmp_spec(&at(s, n, k, c)) == Some(Ordering::Less) {
            end - 1
        } else {
            k
        }
    }
}

/// `new` is `old` with rows `a` and `k` exchanged in columns `from .. n`; the
/// columns left of `from` stay where they were.
pub open spec fn rows_exchanged<T>(new: Seq<T>, old: Seq<T>, n: int, a: int, k: int, from: int) -> bool {
    &&& new.len() == old.len()
    &&& forall|r: int, c: int|
        0 <= r < n && 0 <= c < n ==> #[trigger] at(new, n, r, c) == if from <= c && r == a {
            at(old, n, k, c)
        } else if from <= c && r == k {
            at(old, n, a, c)
        } else {
            at(old, n, r, c)
        }
}

/// Every diagonal value equals one and every other value equals zero.
pub open spec fn is_identity<T: PartialEq + From<u8>>(s: Seq<T>, n: int) -> bool {
    forall|r: int, c: int|
        0 <= r < n && 0 <= c < n ==> (#[trigger] at(s, n, r, c)).eq_spec(
            &(if r == c {
                T::from_spec(1u8)
            } else {
                T::from_spec(0u8)
            }),
        )
}

/// The text of the cells given by `p`, in the matrix layout: `", "` after
/// each value but the last of all `total`, and a line break before each row
/// but the first, rows being `n` values long.
pub open spec fn cells_text(p: Seq<Seq<char>>, n: int, total: int) -> Seq<char>
    decreases p.len(),
{
    if p.len() == 0 {
        Seq::empty()
    } else {
        let i = p.len() - 1;
        let brk: Seq<char> = if n != 0 && i % n == 0 && i != 0 {
            seq!['\n']
        } else {
            Seq::empty()
        };
        let sep: Seq<char> = if i != total - 1 {
            seq![',', ' ']
        } else {
            Seq::empty()
        };
        cells_text(p.drop_last(), n, total) + brk + p[i] + sep
    }
}

/// The text of a matrix whose cells read `p`: the cells in brackets.
pub open spec fn matrix_text(p: Seq<Seq<char>>, n: int) -> Seq<char> {
    seq!['['] + cells_text(p, n, p.len() as int) + seq![']']
}

/// Relies on `String::from_iter`: collecting characters into a `String`
/// keeps them, in order.
#[verifier::external_body]
fn string_of(chars: &Vec<char>) -> (r: String)
    ensures
        r@ == chars@,
{
    chars.iter().collect::<String>()
}

impl<T> Matrix<T> {
    /// The side length `n`.
    pub closed spec fn dim(&self) -> nat {
        self.dimension as nat
    }

    /// The `n * n` values, row by row.
    pub closed spec fn entries(&self) -> Seq<T> {
        self.vals@
    }

    /// The values fill the square exactly.
    pub open spec fn wf(&self) -> bool {
        self.entries().len() == self.dim() * self.dim()
    }

    /// Builds a matrix from its values in row-major order. Fails exactly when
    /// their number is not a perfect square.
    pub fn new(vals: Vec<T>) -> (r: Option<Matrix<T>>)
        ensures
            r is Some <==> is_square(vals@.len()),
            r matches Some(m) ==> m.wf() && m.entries() == vals@ && m.dim() * m.dim()
                == vals@.len(),
    {
        match exact_square_root(vals.len()) {
            Some(n) => Some(Matrix { vals, dimension: n }),
            None => None,
        }
    }

    /// The side length `n`.
    pub fn dimension(&self) -> (r: usize)
        ensures
            r == self.dim(),
    {
        self.dimension
    }

    /// The values, row by row.
    pub fn vals(&self) -> (r: &Vec<T>)
        ensures
            r@ == self.entries(),
    {
        &self.vals
    }

    /// Writes one cell by its flat index.
    pub(crate) fn set_cell(&mut self, idx: usize, v: T)
        requires
            old(self).wf(),
            idx < old(self).entries().len(),
        ensures
            final(self).wf(),
            final(self).dim() == old(self).dim(),
            final(self).entries() == old(self).entries().update(idx as int, v),
    {
        self.vals.set(idx, v);
    }
}

impl<T: core::fmt::Display> Matrix<T> {
    /// The matrix as text: the values as `to_string` writes them, in
    /// brackets, each followed by `", "` but the last, with a line break
    /// before each row but the first.
    pub fn to_text(&self) -> (r: String)
        requires
            self.wf(),
        ensures
            exists|strs: Seq<String>|
                strs.len() == self.entries().len() && (forall|k: int|
                    0 <= k < strs.len() ==> vstd::string::to_string_from_display_ensures::<T>(
                        &self.entries()[k],
                        #[trigger] strs[k],
                    )) && r@ == matrix_text(
                    strs.map_values(|x: String| x@),
                    self.dim() as int,
                ),
    {
        let n = self.dimension;
        let len = self.vals.len();
        let mut out: Vec<char> = Vec::new();
        out.push('[');
        let ghost mut strs: Seq<String> = Seq::empty();
        let mut i: usize = 0;
        while i < len
            invariant
                i <= len,
                len == self.vals@.len(),
                n == self.dim(),
                strs.len() == i,
                forall|k: int|
                    0 <= k < i ==> vstd::string::to_string_from_display_ensures::<T>(
                        &self.vals@[k],
                        #[trigger] strs[k],
                    ),
                out@ == seq!['['] + cells_text(strs.map_values(|x: String| x@), n as int, len as int),
            decreases len - i,
        {
            let ghost before = out@;
            let ghost prev = strs.map_values(|x: String| x@);
            if n != 0 && i % n == 0 && i != 0 {
                out.push('\n');
            }
            let ghost with_brk = out@;
            let shown = self.vals[i].to_string();
            let piece = chars_of(shown.as_str());
            let mut c: usize = 0;
            while c < piece.len()
                invariant
                    c <= piece@.len(),
                    out@ == with_brk + piece@.subrange(0, c as int),
                decreases piece@.len() - c,
            {
                out.push(piece[c]);
                assert(out@ =~= with_brk + piece@.subrange(0, c + 1));
                c += 1;
            }
            assert(piece@.subrange(0, piece@.len() as int) =~= piece@);
            if i + 1 != len {
                out.push(',');
                out.push(' ');
            }
            proof {
                strs = strs.push(shown);
                let next = strs.map_values(|x: String| x@);
                assert(next.drop_last() =~= prev);
                assert(next[i as int] == piece@);
                assert(out@ =~= seq!['['] + cells_text(next, n as int, len as int));
            }
            i += 1;
        }
        out.push(']');
        let r = string_of(&out);
        assert(r@ =~= matrix_text(strs.map_values(|x: String| x@), n as int));
        r
    }
}

impl<T: Copy + PartialOrd> Matrix<T> {
    /// Brings up the row whose value in column `start_index` is the least
    /// among rows `start_index .. n` (the first such row on ties) into row
    /// `start_index`, exchanging the two rows from that column on, and the same
    /// two entries of `b`. Nothing moves when that row is already in place.
    pub fn pivot_rows(&mut self, start_index: usize, b: &mut Vec<T>)
        requires
            old(self).wf(),
            start_index < old(self).dim(),
            old(b)@.len() == old(self).dim(),
        ensures
            final(self).wf(),
            final(self).dim() == old(self).dim(),
            exists|k: int|
                start_index <= k < old(self).dim() && rows_exchanged(
                    final(self).entries(),
                    old(self).entries(),
                    old(self).dim() as int,
                    start_index as int,
                    k,
                    start_index as int,
                ) && final(b)@ == old(b)@.update(start_index as int, old(b)@[k]).update(
                    k,
                    old(b)@[start_index as int],
                ) && (T::obeys_partial_cmp_spec() ==> k == lowest_row(
                    old(self).entries(),
                    old(self).dim() as int,
                    start_index as int,
                    old(self).dim() as int,
                )),
            T::obeys_partial_cmp_spec() ==> ({
                let k = lowest_row(
                    old(self).entries(),
                    old(self).dim() as int,
                    start_index as int,
                    old(self).dim() as int,
                );
                &&& rows_exchanged(
                    final(self).entries(),
                    old(self).entries(),
                    old(self).dim() as int,
                    start_index as int,
                    k,
                    start_index as int,
                )
                &&& final(b)@ == old(b)@.update(start_index as int, old(b)@[k]).update(
                    k,
                    old(b)@[start_index as int],
                )
            }),
            T::obeys_partial_cmp_spec() && lowest_row(
                old(self).entries(),
                old(self).dim() as int,
                start_index as int,
                old(self).dim() as int,
            ) == start_index ==> final(self).entries() == old(self).entries() && final(b)@
                == old(b)@,
    {
        let n = self.dimension;
        let ghost s = self.vals@;
        let ghost ni = n as int;
        let ghost st = start_index as int;
        let ghost old_b = b@;
        let len = self.vals.len();
        proof {
            lemma_cell_in_bounds(ni, st, st);
        }
        let mut pivot = self.vals[start_index * n + start_index];
        let mut swap_row_index = start_index;
        let mut i = start_index + 1;
        while i < n
            invariant
                self.vals@ == s,
                s.len() == ni * ni,
                len == s.len(),
                n == ni,
                st == start_index,
                st < i <= ni,
                st <= swap_row_index < i,
                pivot == at(s, ni, swap_row_index as int, st),
                T::obeys_partial_cmp_spec() ==> swap_row_index == lowest_row(s, ni, st, i as int),
            decreases n - i,
        {
            proof {
                lemma_cell_in_bounds(ni, i as int, st);
            }
            let current_element = self.vals[i * n + start_index];
            if current_element < pivot {
                pivot = current_element;
                swap_row_index = i;
            }
            i += 1;
        }
        let ghost k = swap_row_index as int;
        if swap_row_index != start_index {
            let mut c = start_index;
            while c < n
                invariant
                    self.vals@.len() == s.len(),
                    s.len() == ni * ni,
                    len == s.len(),
                    n == ni,
                    self.dimension == n,
                    st == start_index,
                    st <= c <= ni,
                    st < k < ni,
                    swap_row_index == k,
                    forall|r: int, cc: int|
                        0 <= r < ni && 0 <= cc < ni ==> #[trigger] at(self.vals@, ni, r, cc) == if st
                            <= cc < c && r == st {
                            at(s, ni, k, cc)
                        } else if st <= cc < c && r == k {
                            at(s, ni, st, cc)
                        } else {
                            at(s, ni, r, cc)
                        },
                decreases n - c,
            {
                proof {
                    lemma_cell_in_bounds(ni, st, c as int);
                    lemma_cell_in_bounds(ni, k, c as int);
                }
                let upper = self.vals[start_index * n + c];
                let lower = self.vals[swap_row_index * n + c];
                let ghost before = self.vals@;
                self.vals.set(start_index * n + c, lower);
                self.vals.set(swap_row_index * n + c, upper);
                proof {
                    assert(at(before, ni, k, c as int) == at(s, ni, k, c as int));
                    assert(at(before, ni, st, c as int) == at(s, ni, st, c as int));
                    assert forall|r: int, cc: int| 0 <= r < ni && 0 <= cc < ni implies #[trigger] at(
                        self.vals@,
                        ni,
                        r,
                        cc,
                    ) == if st <= cc < c + 1 && r == st {
                        at(s, ni, k, cc)
                    } else if st <= cc < c + 1 && r == k {
                        at(s, ni, st, cc)
                    } else {
                        at(s, ni, r, cc)
                    } by {
                        if r != st || cc != c {
                            lemma_cells_distinct(ni, r, cc, st, c as int);
                        }
                        if r != k || cc != c {
                            lemma_cells_distinct(ni, r, cc, k, c as int);
                        }
                        lemma_cell_in_bounds(ni, r, cc);
                        assert(at(before, ni, r, cc) == before[r * ni + cc]);
                        if (r != st && r != k) || cc != c {
                            assert(at(self.vals@, ni, r, cc) == at(before, ni, r, cc));
                        }
                    }
                }
                c += 1;
            }
            let upper_b = b[start_index];
            let lower_b = b[swap_row_index];
            b.set(start_index, lower_b);
            b.set(swap_row_index, upper_b);
            assert(rows_exchanged(self.vals@, s, ni, st, k, st));
        } else {
            assert(b@ == b@.update(st, b@[k]).update(k, b@[st]));
            assert(rows_exchanged(self.vals@, s, ni, st, k, st));
        }
        assert(st <= k < ni && rows_exchanged(self.entries(), s, ni, st, k, st) && b@
            == old_b.update(st, old_b[k]).update(k, old_b[st]));
    }
}

impl<T: Copy + PartialEq + From<u8>> Matrix<T> {
    /// Whether the matrix is exactly the identity: each diagonal value equals
    /// one and each other value equals zero, with no tolerance.
    pub fn is_identity_form(&self) -> (r: bool)
        requires
            self.wf(),
        ensures
            T::obeys_eq_spec() && T::obeys_from_spec() ==> (r <==> is_identity(
                self.entries(),
                self.dim() as int,
            )),
    {
        let n = self.dimension;
        let ghost ni = n as int;
        let len = self.vals.len();
        let one = T::from(1u8);
        let zero = T::from(0u8);
        let mut i: usize = 0;
        while i < n
            invariant
                self.wf(),
                n == self.dim(),
                len == self.vals@.len(),
                ni == n,
                i <= n,
                T::obeys_from_spec() ==> one == T::from_spec(1u8) && zero == T::from_spec(0u8),
                T::obeys_eq_spec() && T::obeys_from_spec() ==> forall|r: int, c: int|
                    0 <= r < i && 0 <= c < ni ==> (#[trigger] at(self.vals@, ni, r, c)).eq_spec(
                        &(if r == c {
                            T::from_spec(1u8)
                        } else {
                            T::from_spec(0u8)
                        }),
                    ),
            decreases n - i,
        {
            let mut j: usize = 0;
            while j < n
                invariant
                    self.wf(),
                    n == self.dim(),
                    len == self.vals@.len(),
                    ni == n,
                    i < n,
                    j <= n,
                    T::obeys_from_spec() ==> one == T::from_spec(1u8) && zero == T::from_spec(0u8),
                    T::obeys_eq_spec() && T::obeys_from_spec() ==> forall|r: int, c: int|
                        0 <= r < i && 0 <= c < ni || r == i && 0 <= c < j ==> (#[trigger] at(
                            self.vals@,
                            ni,
                            r,
                            c,
                        )).eq_spec(
                            &(if r == c {
                                T::from_spec(1u8)
                            } else {
                                T::from_spec(0u8)
                            }),
                        ),
                decreases n - j,
            {
                proof {
                    lemma_cell_in_bounds(ni, i as int, j as int);
                }
                let current_value = self.vals[i * n + j];
                let ghost cell = at(self.vals@, ni, i as int, j as int);
                if i == j && current_value != one {
                    assert(cell == current_value);
                    return false;
                } else if i != j && current_value != zero {
                    assert(cell == current_value);
                    return false;
                }
                j += 1;
            }
            i += 1;
        }
        true
    }
}

} // verus!
