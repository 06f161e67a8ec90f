//! Second pass of the assembly: every staged row scatters its entries into
//! the matrix rows.

use vstd::prelude::*;
use crate::sparse::insert::{insert_col, seg_has, seg_ok, EMPTY};
use crate::staging::{lemma_flat_index, Staging};

verus! {

/// What holds of matrix row `r` while entries are being inserted: its slots
/// hold `fill[r]` ascending columns, exactly those seen so far, and the merged
/// entries are counted in `nzloc[r]`.
pub open spec fn row_inv(
    st: &Staging,
    rowstr: Seq<usize>,
    cols: Seq<i32>,
    nzloc: Seq<usize>,
    fill: Seq<int>,
    r: int,
    i: int,
    a: int,
    b: int,
) -> bool {
    &&& seg_ok(cols, rowstr[r] as int, rowstr[r + 1] as int, fill[r], st.n as int)
    &&& fill[r] + nzloc[r] == st.progress(r, i, a, b)
    &&& forall|c: int| #[trigger] seg_has(cols, rowstr[r] as int, fill[r], c) <==> st.seen(r, c, i, a, b)
}

/// What holds of the working arrays while entries are being inserted.
pub open spec fn fill_inv(
    st: &Staging,
    rowstr: Seq<usize>,
    cols: Seq<i32>,
    nzloc: Seq<usize>,
    fill: Seq<int>,
    i: int,
    a: int,
    b: int,
) -> bool {
    &&& rowstr.len() == st.n + 1
    &&& nzloc.len() == st.n
    &&& fill.len() == st.n
    &&& cols.len() == rowstr[st.n as int]
    &&& forall|r: int| 0 <= r <= st.n ==> #[trigger] rowstr[r] == st.reserved_below(r)
    &&& forall|r: int| 0 <= r < st.n ==> #[trigger] row_inv(st, rowstr, cols, nzloc, fill, r, i, a, b)
}

/// Before the first insertion every slot is empty and nothing has been seen.
proof fn lemma_fill_init(st: &Staging, rowstr: Seq<usize>, cols: Seq<i32>, nzloc: Seq<usize>, fill: Seq<int>)
    requires
        st.wf(),
        rowstr.len() == st.n + 1,
        forall|r: int| 0 <= r <= st.n ==> #[trigger] rowstr[r] == st.reserved_below(r),
        cols.len() == rowstr[st.n as int],
        forall|k: int| 0 <= k < cols.len() ==> cols[k] == EMPTY,
        nzloc.len() == st.n,
        forall|r: int| 0 <= r < st.n ==> nzloc[r] == 0,
        fill.len() == st.n,
        forall|r: int| 0 <= r < st.n ==> fill[r] == 0,
    ensures
        fill_inv(st, rowstr, cols, nzloc, fill, 0, 0, 0),
{
    assert forall|r: int| 0 <= r < st.n implies #[trigger] row_inv(
        st,
        rowstr,
        cols,
        nzloc,
        fill,
        r,
        0,
        0,
        0,
    ) by {
        st.lemma_reserved_below_monotone(r, r + 1);
        st.lemma_reserved_below_monotone(r + 1, st.n as int);
        st.lemma_reserved_below_monotone(0, r);
        assert(rowstr[r] == st.reserved_below(r));
        assert(rowstr[r + 1] == st.reserved_below(r + 1));
        assert(st.hits(0, 0, r) * st.arow[0] == 0);
        assert(st.progress(r, 0, 0, 0) == 0);
        assert forall|c: int| #[trigger]
            seg_has(cols, rowstr[r] as int, fill[r], c) <==> st.seen(r, c, 0, 0, 0) by {
            assert(!st.linked(0, r, c));
            assert(!st.occurs(0, 0, r));
            assert(!st.occurs(0, 0, c));
        }
    }
}

/// One insertion carries the working arrays from entry `b` to entry `b + 1`.
proof fn lemma_fill_step_b(
    st: &Staging,
    rowstr: Seq<usize>,
    cols0: Seq<i32>,
    cols1: Seq<i32>,
    nzloc0: Seq<usize>,
    nzloc1: Seq<usize>,
    fill0: Seq<int>,
    fill1: Seq<int>,
    i: int,
    a: int,
    b: int,
    merged: bool,
)
    requires
        st.wf(),
        0 <= i < st.n,
        0 <= a < st.arow[i],
        0 <= b < st.arow[i],
        fill_inv(st, rowstr, cols0, nzloc0, fill0, i, a, b),
        cols1.len() == cols0.len(),
        forall|k: int|
            0 <= k < rowstr[st.col(i, a)] || rowstr[st.col(i, a) + 1] <= k < cols0.len() ==> cols1[k]
                == cols0[k],
        merged == seg_has(cols0, rowstr[st.col(i, a)] as int, fill0[st.col(i, a)], st.col(i, b)),
        merged ==> cols1 == cols0,
        !merged ==> seg_ok(
            cols1,
            rowstr[st.col(i, a)] as int,
            rowstr[st.col(i, a) + 1] as int,
            fill0[st.col(i, a)] + 1,
            st.n as int,
        ),
        !merged ==> forall|c: int| #[trigger]
            seg_has(cols1, rowstr[st.col(i, a)] as int, fill0[st.col(i, a)] + 1, c) <==> (seg_has(
                cols0,
                rowstr[st.col(i, a)] as int,
                fill0[st.col(i, a)],
                c,
            ) || c == st.col(i, b)),
        merged ==> fill1 == fill0 && nzloc1 == nzloc0.update(
            st.col(i, a),
            (nzloc0[st.col(i, a)] + 1) as usize,
        ),
        merged ==> nzloc0[st.col(i, a)] + 1 <= usize::MAX,
        !merged ==> nzloc1 == nzloc0 && fill1 == fill0.update(st.col(i, a), fill0[st.col(i, a)] + 1),
    ensures
        fill_inv(st, rowstr, cols1, nzloc1, fill1, i, a, b + 1),
{
    let j = st.col(i, a);
    let jcol = st.col(i, b);
    let n = st.n as int;
    assert(0 <= j < n);
    st.lemma_reserved_below_monotone(j, j + 1);
    assert(rowstr[j] == st.reserved_below(j));
    assert(rowstr[j + 1] == st.reserved_below(j + 1));
    assert forall|r: int| 0 <= r < n implies #[trigger] row_inv(
        st,
        rowstr,
        cols1,
        nzloc1,
        fill1,
        r,
        i,
        a,
        b + 1,
    ) by {
        assert(row_inv(st, rowstr, cols0, nzloc0, fill0, r, i, a, b));
        assert(rowstr[r] == st.reserved_below(r));
        assert(rowstr[r + 1] == st.reserved_below(r + 1));
        let lo = rowstr[r] as int;
        let f = fill0[r];
        if r == j {
            assert forall|c: int| #[trigger]
                seg_has(cols1, lo, fill1[r], c) <==> st.seen(r, c, i, a, b + 1) by {
                st.lemma_occurs_step(i, b, c);
                assert(seg_has(cols0, lo, f, c) <==> st.seen(r, c, i, a, b));
                if !merged {
                    assert(seg_has(cols1, lo, f + 1, c) <==> (seg_has(cols0, lo, f, c) || c == jcol));
                }
            }
        } else {
            if r < j {
                st.lemma_reserved_below_monotone(r + 1, j);
            } else {
                st.lemma_reserved_below_monotone(j + 1, r);
            }
            assert(fill1[r] == f);
            assert(nzloc1[r] == nzloc0[r]);
            assert forall|k: int| lo <= k < rowstr[r + 1] implies cols1[k] == cols0[k] by {}
            assert(seg_ok(cols1, lo, rowstr[r + 1] as int, f, n));
            assert forall|c: int| #[trigger]
                seg_has(cols1, lo, fill1[r], c) <==> st.seen(r, c, i, a, b + 1) by {
                assert(seg_has(cols0, lo, f, c) <==> st.seen(r, c, i, a, b));
                if seg_has(cols1, lo, f, c) {
                    let k = choose|k: int| lo <= k < lo + f && cols1[k] == c;
                    assert(cols0[k] == c);
                }
                if seg_has(cols0, lo, f, c) {
                    let k = choose|k: int| lo <= k < lo + f && cols0[k] == c;
                    assert(cols1[k] == c);
                }
            }
        }
    }
}

/// When slot `a` has scattered all its entries, the arrays are ready for
/// slot `a + 1`.
proof fn lemma_fill_step_a(
    st: &Staging,
    rowstr: Seq<usize>,
    cols: Seq<i32>,
    nzloc: Seq<usize>,
    fill: Seq<int>,
    i: int,
    a: int,
)
    requires
        st.wf(),
        0 <= i < st.n,
        0 <= a < st.arow[i],
        fill_inv(st, rowstr, cols, nzloc, fill, i, a, st.arow[i] as int),
    ensures
        fill_inv(st, rowstr, cols, nzloc, fill, i, a + 1, 0),
{
    let w = st.arow[i] as int;
    assert forall|r: int| 0 <= r < st.n implies #[trigger] row_inv(
        st,
        rowstr,
        cols,
        nzloc,
        fill,
        r,
        i,
        a + 1,
        0,
    ) by {
        assert(row_inv(st, rowstr, cols, nzloc, fill, r, i, a, w));
        let h = st.hits(i, a, r);
        assert((h + 1) * w == h * w + w) by (nonlinear_arith);
        assert(st.progress(r, i, a + 1, 0) == st.progress(r, i, a, w));
        st.lemma_occurs_step(i, a, r);
        assert forall|c: int| st.seen(r, c, i, a + 1, 0) <==> st.seen(r, c, i, a, w) by {
            assert(!st.occurs(i, 0, c));
        }
    }
}

/// When staged row `i` has scattered all its slots, the arrays are ready for
/// row `i + 1`.
proof fn lemma_fill_step_i(
    st: &Staging,
    rowstr: Seq<usize>,
    cols: Seq<i32>,
    nzloc: Seq<usize>,
    fill: Seq<int>,
    i: int,
)
    requires
        st.wf(),
        0 <= i < st.n,
        fill_inv(st, rowstr, cols, nzloc, fill, i, st.arow[i] as int, 0),
    ensures
        fill_inv(st, rowstr, cols, nzloc, fill, i + 1, 0, 0),
{
    let w = st.arow[i] as int;
    assert forall|r: int| 0 <= r < st.n implies #[trigger] row_inv(
        st,
        rowstr,
        cols,
        nzloc,
        fill,
        r,
        i + 1,
        0,
        0,
    ) by {
        assert(row_inv(st, rowstr, cols, nzloc, fill, r, i, w, 0));
        assert(st.hits(i + 1, 0, r) * st.arow[i + 1] == 0);
        assert(st.progress(r, i + 1, 0, 0) == st.progress(r, i, w, 0));
        assert forall|c: int| st.seen(r, c, i + 1, 0, 0) <==> st.seen(r, c, i, w, 0) by {
            st.lemma_linked_step(i, r, c);
            assert(!st.occurs(i, 0, c));
            assert(!st.occurs(i + 1, 0, c));
            assert(!st.occurs(i + 1, 0, r));
        }
    }
}

/// Scatters every staged row into the matrix rows, merging entries that land
/// on a cell already present.
pub(crate) fn fill_rows(st: &Staging, rowstr: &Vec<usize>, cols: &mut Vec<i32>, nzloc: &mut Vec<usize>) -> (fill:
    Ghost<Seq<int>>)
    requires
        st.wf(),
        rowstr.len() == st.n + 1,
        forall|r: int| 0 <= r <= st.n ==> #[trigger] rowstr[r] == st.reserved_below(r),
        old(cols).len() == rowstr[st.n as int],
        forall|k: int| 0 <= k < old(cols).len() ==> old(cols)[k] == EMPTY,
        old(nzloc).len() == st.n,
        forall|r: int| 0 <= r < st.n ==> old(nzloc)[r] == 0,
    ensures
        fill_inv(st, rowstr@, final(cols)@, final(nzloc)@, fill@, st.n as int, 0, 0),
{
    let n = st.n;
    let ghost mut fill: Seq<int> = Seq::new(n as nat, |r: int| 0int);
    proof {
        lemma_fill_init(st, rowstr@, cols@, nzloc@, fill);
    }
    let mut i: usize = 0;
    while i < n
        invariant
            st.wf(),
            n == st.n,
            i <= n,
            fill_inv(st, rowstr@, cols@, nzloc@, fill, i as int, 0, 0),
        decreases n - i,
    {
        let w: usize = st.arow[i];
        let mut a: usize = 0;
        while a < w
            invariant
                st.wf(),
                n == st.n,
                i < n,
                w == st.arow[i as int],
                a <= w,
                fill_inv(st, rowstr@, cols@, nzloc@, fill, i as int, a as int, 0),
            decreases w - a,
        {
            proof {
                lemma_flat_index(i as int, a as int, n as int, st.stride as int);
                assert(0 <= st.col(i as int, a as int) < n);
            }
            let j: usize = st.acol[i * st.stride + a] as usize;
            let lo: usize = rowstr[j];
            let hi: usize = rowstr[j + 1];
            let mut b: usize = 0;
            while b < w
                invariant
                    st.wf(),
                    n == st.n,
                    i < n,
                    w == st.arow[i as int],
                    a < w,
                    b <= w,
                    j == st.col(i as int, a as int),
                    j < n,
                    lo == rowstr[j as int],
                    hi == rowstr[j + 1],
                    fill_inv(st, rowstr@, cols@, nzloc@, fill, i as int, a as int, b as int),
                decreases w - b,
            {
                proof {
                    lemma_flat_index(i as int, b as int, n as int, st.stride as int);
                    assert(0 <= st.col(i as int, b as int) < n);
                    st.lemma_progress_bound(i as int, a as int, b as int);
                    assert(row_inv(st, rowstr@, cols@, nzloc@, fill, j as int, i as int, a as int, b as int));
                    assert(rowstr[j as int] == st.reserved_below(j as int));
                    assert(rowstr[j + 1] == st.reserved_below(j + 1));
                }
                let jcol: i32 = st.acol[i * st.stride + b];
                let ghost cols0 = cols@;
                let ghost nzloc0 = nzloc@;
                let ghost fill0 = fill;
                let merged = insert_col(cols, lo, hi, jcol, Ghost(fill[j as int]), Ghost(n as int));
                if merged {
                    let bumped: usize = nzloc[j] + 1;
                    nzloc[j] = bumped;
                } else {
                    proof {
                        fill = fill.update(j as int, fill[j as int] + 1);
                    }
                }
                proof {
                    lemma_fill_step_b(
                        st,
                        rowstr@,
                        cols0,
                        cols@,
                        nzloc0,
                        nzloc@,
                        fill0,
                        fill,
                        i as int,
                        a as int,
                        b as int,
                        merged,
                    );
                }
                b += 1;
            }
            proof {
                lemma_fill_step_a(st, rowstr@, cols@, nzloc@, fill, i as int, a as int);
            }
            a += 1;
        }
        proof {
            lemma_fill_step_i(st, rowstr@, cols@, nzloc@, fill, i as int);
        }
        i += 1;
    }
    Ghost(fill)
}
} // verus!
