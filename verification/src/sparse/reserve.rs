//! First pass of the assembly: how many slots each matrix row may need.

use vstd::prelude::*;
use crate::sparse::capped;
use crate::staging::{lemma_flat_index, Staging};

verus! {

/// Counts, for every matrix row, the slots that the staged rows ask for.
///
/// Entry `r + 1` of the result is the count for row `r`, capped at
/// `usize::MAX`; entry 0 is zero.
pub(crate) fn count_reserved(st: &Staging) -> (rowstr: Vec<usize>)
    requires
        st.wf(),
    ensures
        rowstr.len() == st.n + 1,
        rowstr[0] == 0,
        forall|r: int| 0 <= r < st.n ==> rowstr[r + 1] == capped(#[trigger] st.reserved(st.n as int, r)),
{
    let n = st.n;
    let mut rowstr: Vec<usize> = vec![0usize; n + 1];
    let mut i: usize = 0;
    while i < n
        invariant
            st.wf(),
            n == st.n,
            i <= n,
            rowstr.len() == n + 1,
            rowstr[0] == 0,
            forall|r: int| 0 <= r < n ==> rowstr[r + 1] == capped(#[trigger] st.reserved(i as int, r)),
        decreases n - i,
    {
        let w: usize = st.arow[i];
        let mut a: usize = 0;
        while a < w
            invariant
                st.wf(),
                n == st.n,
                i < n,
                w == st.arow[i as int],
                a <= w,
                rowstr.len() == n + 1,
                rowstr[0] == 0,
                forall|r: int|
                    0 <= r < n ==> rowstr[r + 1] == capped(
                        #[trigger] st.reserved(i as int, r) + st.hits(i as int, a as int, r) * w,
                    ),
            decreases w - a,
        {
            proof {
                lemma_flat_index(i as int, a as int, n as int, st.stride as int);
                assert(0 <= st.col(i as int, a as int) < n);
            }
            let j: usize = st.acol[i * st.stride + a] as usize;
            let ghost before = rowstr@;
            let bumped: usize = rowstr[j + 1].saturating_add(w);
            rowstr[j + 1] = bumped;
            proof {
                assert forall|r: int| 0 <= r < n implies rowstr[r + 1] == capped(
                    #[trigger] st.reserved(i as int, r) + st.hits(i as int, a + 1, r) * w,
                ) by {
                    let h = st.hits(i as int, a as int, r);
                    st.lemma_hits_monotone(i as int, 0, a as int, r);
                    st.lemma_reserved_monotone(0, i as int, r);
                    assert(before[r + 1] == capped(st.reserved(i as int, r) + h * w));
                    assert(0 <= h * w) by (nonlinear_arith)
                        requires
                            0 <= h,
                            0 <= w,
                    ;
                    if r == j {
                        assert((h + 1) * w == h * w + w) by (nonlinear_arith);
                    }
                }
            }
            a += 1;
        }
        proof {
            assert forall|r: int| 0 <= r < n implies rowstr[r + 1] == capped(
                #[trigger] st.reserved(i + 1, r),
            ) by {
                assert(rowstr[r + 1] == capped(
                    st.reserved(i as int, r) + st.hits(i as int, w as int, r) * w,
                ));
            }
        }
        i += 1;
    }
    rowstr
}

/// Turns per-row counts into running totals, capped at `usize::MAX`.
pub(crate) fn running_totals(st: &Staging, rowstr: &mut Vec<usize>)
    requires
        st.wf(),
        old(rowstr).len() == st.n + 1,
        old(rowstr)[0] == 0,
        forall|r: int|
            0 <= r < st.n ==> old(rowstr)[r + 1] == capped(#[trigger] st.reserved(st.n as int, r)),
    ensures
        final(rowstr).len() == st.n + 1,
        forall|r: int| 0 <= r <= st.n ==> final(rowstr)[r] == capped(#[trigger] st.reserved_below(r)),
{
    let n = st.n;
    let mut j: usize = 1;
    while j <= n
        invariant
            st.wf(),
            n == st.n,
            1 <= j <= n + 1,
            rowstr.len() == n + 1,
            forall|r: int| 0 <= r < j ==> rowstr[r] == capped(#[trigger] st.reserved_below(r)),
            forall|r: int|
                j - 1 <= r < n ==> rowstr[r + 1] == capped(#[trigger] st.reserved(st.n as int, r)),
        decreases n + 1 - j,
    {
        proof {
            st.lemma_reserved_below_monotone(0, j - 1);
            st.lemma_reserved_monotone(0, n as int, j - 1);
            assert(rowstr[j as int] == capped(st.reserved(n as int, j - 1)));
            assert(rowstr[j - 1] == capped(st.reserved_below(j - 1)));
        }
        let total: usize = rowstr[j].saturating_add(rowstr[j - 1]);
        rowstr[j] = total;
        j += 1;
    }
}
} // verus!
