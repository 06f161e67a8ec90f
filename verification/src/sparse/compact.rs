//! Last pass of the assembly: the slots that merging left unused are squeezed
//! out.

use vstd::prelude::*;
use crate::sparse::fill::{fill_inv, row_inv};
use crate::sparse::insert::seg_ok;
use crate::staging::Staging;

verus! {

/// The sum of the first `r` entries of `fill`.
pub open spec fn fill_below(fill: Seq<int>, r: int) -> int
    decreases r,
{
    if r <= 0 {
        0
    } else {
        fill_below(fill, r - 1) + fill[r - 1]
    }
}

/// The sum of the first `r` entries of `nzloc`.
pub open spec fn merged_below(nzloc: Seq<usize>, r: int) -> int
    decreases r,
{
    if r <= 0 {
        0
    } else {
        merged_below(nzloc, r - 1) + nzloc[r - 1]
    }
}

/// The `f` slots of `cols` from `dst` on repeat the `f` slots of `from`
/// that start at `src`.
pub open spec fn row_moved(cols: Seq<i32>, from: Seq<i32>, dst: int, src: int, f: int) -> bool {
    forall|k: int| dst <= k < dst + f ==> #[trigger] cols[k] == from[k - dst + src]
}

/// Once every entry has been scattered, the slots set aside before row `r`
/// are the slots filled plus the entries merged, and sums over more rows are
/// no smaller.
pub(crate) proof fn lemma_slots_split(
    st: &Staging,
    rowstr: Seq<usize>,
    cols: Seq<i32>,
    nzloc: Seq<usize>,
    fill: Seq<int>,
    r: int,
)
    requires
        st.wf(),
        fill_inv(st, rowstr, cols, nzloc, fill, st.n as int, 0, 0),
        0 <= r <= st.n,
    ensures
        st.reserved_below(r) == fill_below(fill, r) + merged_below(nzloc, r),
        0 <= fill_below(fill, r),
        0 <= merged_below(nzloc, r),
        r < st.n ==> fill_below(fill, r + 1) == fill_below(fill, r) + fill[r] && fill[r] >= 0
            && st.reserved_below(r + 1) == st.reserved_below(r) + fill[r] + nzloc[r],
    decreases r,
{
    let n = st.n as int;
    if r > 0 {
        lemma_slots_split(st, rowstr, cols, nzloc, fill, r - 1);
    }
    if r < n {
        assert(row_inv(st, rowstr, cols, nzloc, fill, r, n, 0, 0));
        assert(st.hits(n, 0, r) * st.arow[n] == 0);
        assert(st.progress(r, n, 0, 0) == st.reserved(n, r));
    }
}

/// Squeezes the unused slots out of every row and rewrites the row pointers
/// to match.
///
/// The merged-entry counts become running totals; row `j` then moves left by
/// the total before it, and so does its pointer.
pub(crate) fn compact(
    st: &Staging,
    rowstr: &mut Vec<usize>,
    cols: &mut Vec<i32>,
    nzloc: &mut Vec<usize>,
    Ghost(fill): Ghost<Seq<int>>,
)
    requires
        st.wf(),
        fill_inv(st, old(rowstr)@, old(cols)@, old(nzloc)@, fill, st.n as int, 0, 0),
    ensures
        final(rowstr).len() == st.n + 1,
        forall|r: int| 0 <= r <= st.n ==> #[trigger] final(rowstr)[r] == fill_below(fill, r),
        final(cols).len() == fill_below(fill, st.n as int),
        forall|k: int| 0 <= k < final(cols).len() ==> 0 <= #[trigger] final(cols)[k] < st.n,
        forall|r: int|
            0 <= r < st.n ==> #[trigger] row_moved(
                final(cols)@,
                old(cols)@,
                fill_below(fill, r),
                old(rowstr)[r] as int,
                fill[r],
            ),
{
    let n = st.n;
    let ghost rs0 = rowstr@;
    let ghost c0 = cols@;
    let ghost nz0 = nzloc@;
    proof {
        assert(merged_below(nz0, 1) == merged_below(nz0, 0) + nz0[0]);
    }
    let mut j: usize = 1;
    while j < n
        invariant
            st.wf(),
            n == st.n,
            1 <= j,
            nzloc.len() == n,
            fill_inv(st, rs0, c0, nz0, fill, n as int, 0, 0),
            forall|r: int| 0 <= r < j && r < n ==> #[trigger] nzloc[r] == merged_below(nz0, r + 1),
            forall|r: int| j <= r < n ==> #[trigger] nzloc[r] == nz0[r],
        decreases n - j,
    {
        proof {
            lemma_slots_split(st, rs0, c0, nz0, fill, j as int);
            lemma_slots_split(st, rs0, c0, nz0, fill, j + 1);
            assert(rs0[j + 1] == st.reserved_below(j + 1));
            assert(nzloc[j - 1] == merged_below(nz0, j as int));
        }
        let total: usize = nzloc[j] + nzloc[j - 1];
        nzloc[j] = total;
        j += 1;
    }
    let ghost nz1 = nzloc@;
    let mut j: usize = 0;
    while j < n
        invariant
            st.wf(),
            n == st.n,
            j <= n,
            rowstr@ == rs0,
            nzloc@ == nz1,
            nz1.len() == n,
            cols.len() == c0.len(),
            fill_inv(st, rs0, c0, nz0, fill, n as int, 0, 0),
            forall|r: int| 0 <= r < n ==> #[trigger] nz1[r] == merged_below(nz0, r + 1),
            forall|k: int| 0 <= k < fill_below(fill, j as int) ==> 0 <= #[trigger] cols[k] < n,
            forall|k: int| rs0[j as int] <= k < cols.len() ==> #[trigger] cols[k] == c0[k],
            forall|r: int|
                0 <= r < j ==> #[trigger] row_moved(
                    cols@,
                    c0,
                    fill_below(fill, r),
                    rs0[r] as int,
                    fill[r],
                ),
        decreases n - j,
    {
        proof {
            lemma_slots_split(st, rs0, c0, nz0, fill, j as int);
            lemma_slots_split(st, rs0, c0, nz0, fill, j + 1);
            assert(rs0[j as int] == st.reserved_below(j as int));
            assert(rs0[j + 1] == st.reserved_below(j + 1));
            assert(nz1[j as int] == merged_below(nz0, j + 1));
            if j > 0 {
                assert(nz1[j - 1] == merged_below(nz0, j as int));
            }
            assert(row_inv(st, rs0, c0, nz0, fill, j as int, n as int, 0, 0));
            st.lemma_reserved_below_monotone(j + 1, n as int);
            assert(rs0[n as int] == st.reserved_below(n as int));
        }
        let j1: usize = if j > 0 {
            rowstr[j] - nzloc[j - 1]
        } else {
            0
        };
        let j2: usize = rowstr[j + 1] - nzloc[j];
        let mut nza: usize = rowstr[j];
        let ghost c1 = cols@;
        let mut k: usize = j1;
        while k < j2
            invariant
                n == st.n,
                j < n,
                j1 == fill_below(fill, j as int),
                j2 == j1 + fill[j as int],
                j1 <= k <= j2,
                nza == rs0[j as int] + (k - j1),
                j1 <= rs0[j as int],
                rs0[j as int] + fill[j as int] <= rs0[j + 1],
                rs0[j + 1] <= c0.len(),
                cols.len() == c0.len(),
                c1.len() == c0.len(),
                seg_ok(c0, rs0[j as int] as int, rs0[j + 1] as int, fill[j as int], n as int),
                forall|m: int| 0 <= m < j1 ==> #[trigger] cols[m] == c1[m],
                forall|m: int| j1 <= m < k ==> #[trigger] cols[m] == c0[m - j1 + rs0[j as int]],
                forall|m: int| nza <= m < cols.len() ==> #[trigger] cols[m] == c0[m],
            decreases j2 - k,
        {
            let moved: i32 = cols[nza];
            cols[k] = moved;
            nza += 1;
            k += 1;
        }
        proof {
            assert forall|r: int| 0 <= r < j + 1 implies #[trigger] row_moved(
                cols@,
                c0,
                fill_below(fill, r),
                rs0[r] as int,
                fill[r],
            ) by {
                if r < j {
                    assert(row_moved(c1, c0, fill_below(fill, r), rs0[r] as int, fill[r]));
                    lemma_slots_split(st, rs0, c0, nz0, fill, r);
                    lemma_fill_below_monotone(st, rs0, c0, nz0, fill, r + 1, j as int);
                }
            }
            assert forall|m: int| 0 <= m < fill_below(fill, j + 1) implies 0 <= #[trigger] cols[m]
                < n by {
                if m < j1 {
                    assert(cols[m] == c1[m]);
                } else {
                    assert(cols[m] == c0[m - j1 + rs0[j as int]]);
                }
            }
        }
        j += 1;
    }
    proof {
        lemma_slots_split(st, rs0, c0, nz0, fill, n as int);
        assert(rs0[n as int] == st.reserved_below(n as int));
        assert(rs0[0] == st.reserved_below(0));
    }
    let mut j: usize = 1;
    while j <= n
        invariant
            st.wf(),
            n == st.n,
            1 <= j <= n + 1,
            rowstr.len() == n + 1,
            nzloc@ == nz1,
            nz1.len() == n,
            fill_inv(st, rs0, c0, nz0, fill, n as int, 0, 0),
            forall|r: int| 0 <= r < n ==> #[trigger] nz1[r] == merged_below(nz0, r + 1),
            forall|r: int| 0 <= r < j ==> #[trigger] rowstr[r] == fill_below(fill, r),
            forall|r: int| j <= r <= n ==> #[trigger] rowstr[r] == rs0[r],
        decreases n + 1 - j,
    {
        proof {
            lemma_slots_split(st, rs0, c0, nz0, fill, j as int);
            assert(rs0[j as int] == st.reserved_below(j as int));
            assert(nz1[j - 1] == merged_below(nz0, j as int));
        }
        let moved: usize = rowstr[j] - nzloc[j - 1];
        rowstr[j] = moved;
        j += 1;
    }
    let ghost c2 = cols@;
    cols.truncate(rowstr[n]);
    proof {
        assert forall|r: int| 0 <= r < n implies #[trigger] row_moved(
            cols@,
            c0,
            fill_below(fill, r),
            rs0[r] as int,
            fill[r],
        ) by {
            assert(row_moved(c2, c0, fill_below(fill, r), rs0[r] as int, fill[r]));
            lemma_slots_split(st, rs0, c0, nz0, fill, r);
            lemma_fill_below_monotone(st, rs0, c0, nz0, fill, r + 1, n as int);
        }
    }
}

/// Sums of filled slots over more rows are no smaller.
pub(crate) proof fn lemma_fill_below_monotone(
    st: &Staging,
    rowstr: Seq<usize>,
    cols: Seq<i32>,
    nzloc: Seq<usize>,
    fill: Seq<int>,
    r1: int,
    r2: int,
)
    requires
        st.wf(),
        fill_inv(st, rowstr, cols, nzloc, fill, st.n as int, 0, 0),
        0 <= r1 <= r2 <= st.n,
    ensures
        fill_below(fill, r1) <= fill_below(fill, r2),
    decreases r2 - r1,
{
    if r1 < r2 {
        lemma_slots_split(st, rowstr, cols, nzloc, fill, r2 - 1);
        lemma_fill_below_monotone(st, rowstr, cols, nzloc, fill, r1, r2 - 1);
    }
}
} // verus!
