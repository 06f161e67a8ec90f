//! Assembly of the staged rows into the compressed-row pattern of the matrix.
//!
//! Every staged row scatters its columns into the matrix rows named by those
//! same columns. A matrix row first gets as many slots as entries may land in
//! it; entries are then inserted in ascending column order, entries that land
//! on a column already present are merged and counted, and at the end the
//! unused slots are squeezed out.

mod compact;
mod fill;
mod insert;
mod reserve;

use vstd::prelude::*;
use crate::csr::Csr;
use crate::sparse::compact::{
    compact, fill_below, lemma_fill_below_monotone, lemma_slots_split, row_moved,
};
use crate::sparse::fill::{fill_rows, row_inv};
use crate::sparse::insert::{seg_has, EMPTY};
use crate::sparse::reserve::{count_reserved, running_totals};
use crate::staging::Staging;

verus! {

/// Why a pattern could not be assembled.
#[derive(Clone, Copy, Debug, PartialEq, Eq)]
pub enum SparseError {
    /// The staged rows ask for more slots than the caller allows.
    SpaceExceeded {
        /// Number of matrix rows.
        rows: usize,
        /// Slots asked for, capped at `usize::MAX`.
        needed: usize,
        /// Slots allowed.
        capacity: usize,
    },
}

/// `x` capped at `usize::MAX`.
pub open spec fn capped(x: int) -> int {
    if x > usize::MAX {
        usize::MAX as int
    } else {
        x
    }
}

/// Assembles the pattern of the matrix that the staged rows describe.
///
/// Cell `(r, c)` is stored exactly when some staged row holds both `r` and
/// `c`. The rows of the result are gap-free, each with its columns in
/// strictly ascending order. Assembly is refused when the staged rows ask for
/// more than `nz` slots before merging, or for as many as `usize::MAX`.
pub fn sparse(st: &Staging, nz: usize) -> (res: Result<Csr, SparseError>)
    requires
        st.wf(),
    ensures
        res is Ok <==> st.reserved_total() <= nz && st.reserved_total() < usize::MAX,
        match res {
            Ok(m) => {
                &&& m.wf()
                &&& m.rows() == st.n
                &&& forall|r: int, c: int|
                    0 <= r < st.n ==> (#[trigger] m.has(r, c) <==> st.linked(st.n as int, r, c))
            },
            Err(e) => e == (SparseError::SpaceExceeded {
                rows: st.n,
                needed: capped(st.reserved_total()) as usize,
                capacity: nz,
            }),
        },
{
    let n = st.n;
    let mut rowstr = count_reserved(st);
    running_totals(st, &mut rowstr);
    let nza: usize = rowstr[n];
    proof {
        assert(nza == capped(st.reserved_below(n as int)));
        st.lemma_reserved_below_monotone(0, n as int);
    }
    if nza > nz || nza == usize::MAX {
        return Err(SparseError::SpaceExceeded { rows: n, needed: nza, capacity: nz });
    }
    proof {
        assert forall|r: int| 0 <= r <= n implies #[trigger] rowstr[r] == st.reserved_below(r) by {
            st.lemma_reserved_below_monotone(r, n as int);
            st.lemma_reserved_below_monotone(0, r);
            assert(rowstr[r] == capped(st.reserved_below(r)));
        }
    }
    let mut colidx: Vec<i32> = vec![EMPTY; nza];
    let mut nzloc: Vec<usize> = vec![0usize; n];
    let ghost rs0 = rowstr@;
    let Ghost(fill) = fill_rows(st, &rowstr, &mut colidx, &mut nzloc);
    let ghost c0 = colidx@;
    let ghost nz0 = nzloc@;
    compact(st, &mut rowstr, &mut colidx, &mut nzloc, Ghost(fill));
    let m = Csr { row_ptr: rowstr, col_index: colidx };
    proof {
        assert(m.rows() == n);
        assert forall|j: int, l: int| 0 <= j <= l <= m.rows() implies m.row_ptr[j] <= m.row_ptr[l] by {
            lemma_fill_below_monotone(st, rs0, c0, nz0, fill, j, l);
            assert(m.row_ptr[j] == fill_below(fill, j));
            assert(m.row_ptr[l] == fill_below(fill, l));
        }
        assert(m.row_ptr[0] == fill_below(fill, 0));
        assert(m.row_ptr[n as int] == fill_below(fill, n as int));
        assert forall|r: int| 0 <= r < n implies #[trigger] m.row_ascends(r) by {
            let dst = fill_below(fill, r);
            let src = rs0[r] as int;
            let f = fill[r];
            lemma_slots_split(st, rs0, c0, nz0, fill, r);
            assert(m.row_ptr[r] == dst);
            assert(m.row_ptr[r + 1] == fill_below(fill, r + 1));
            assert(row_moved(m.col_index@, c0, dst, src, f));
            assert(row_inv(st, rs0, c0, nz0, fill, r, n as int, 0, 0));
            assert forall|k: int, l: int| dst <= k < l < dst + f implies m.col_index[k]
                < m.col_index[l] by {
                assert(m.col_index[k] == c0[k - dst + src]);
                assert(m.col_index[l] == c0[l - dst + src]);
            }
        }
        assert forall|r: int, c: int| 0 <= r < n implies (#[trigger] m.has(r, c) <==> st.linked(
            n as int,
            r,
            c,
        )) by {
            let dst = fill_below(fill, r);
            let src = rs0[r] as int;
            let f = fill[r];
            lemma_slots_split(st, rs0, c0, nz0, fill, r);
            assert(m.row_ptr[r] == dst);
            assert(m.row_ptr[r + 1] == fill_below(fill, r + 1));
            assert(row_moved(m.col_index@, c0, dst, src, f));
            assert(row_inv(st, rs0, c0, nz0, fill, r, n as int, 0, 0));
            assert(seg_has(c0, src, f, c) <==> st.seen(r, c, n as int, 0, 0));
            assert(!st.occurs(n as int, 0, r));
            assert(!st.occurs(n as int, 0, c));
            if m.has(r, c) {
                let k = choose|k: int| m.row_ptr[r] <= k < m.row_ptr[r + 1] && m.col_index[k] == c;
                assert(m.col_index[k] == c0[k - dst + src]);
                assert(seg_has(c0, src, f, c));
            }
            if seg_has(c0, src, f, c) {
                let k = choose|k: int| src <= k < src + f && c0[k] == c;
                assert(m.col_index[k - src + dst] == c0[(k - src + dst) - dst + src]);
                assert(m.has(r, c));
            }
        }
    }
    Ok(m)
}

/// The columns that the staged rows couple with `r`.
pub open spec fn coupled_cols(st: &Staging, r: int) -> Set<i32> {
    Set::new(|c: i32| st.linked(st.n as int, r, c as int))
}

/// A row of the assembled pattern has one slot for each distinct column that
/// the staged rows couple with it: what was set aside less what was merged.
pub proof fn lemma_row_count(st: &Staging, m: &Csr, r: int)
    requires
        m.wf(),
        m.rows() == st.n,
        0 <= r < st.n,
        forall|q: int, c: int| 0 <= q < st.n ==> (#[trigger] m.has(q, c) <==> st.linked(st.n as int, q, c)),
    ensures
        coupled_cols(st, r).finite(),
        m.row_ptr[r + 1] - m.row_ptr[r] == coupled_cols(st, r).len(),
{
    m.lemma_row(r);
    let s = m.row(r);
    assert(s.no_duplicates());
    s.unique_seq_to_set();
    vstd::seq_lib::seq_to_set_is_finite(s);
    assert forall|c: i32| s.to_set().contains(c) <==> coupled_cols(st, r).contains(c) by {
        assert(s.contains(c) <==> m.has(r, c as int));
    }
    assert(s.to_set() =~= coupled_cols(st, r));
}
} // verus!
