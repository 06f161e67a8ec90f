//! Synthesis of the matrix: one random sparse row per matrix row, each with
//! its diagonal column forced in, staged and then assembled.
//!
//! All rows draw from one stream, one after the other, so the seed a row
//! starts from is the seed the row before it left behind.

use vstd::prelude::*;
use vstd::arithmetic::power2::pow2;
use vstd::arithmetic::power2::lemma_pow2_unfold;
use crate::randdp::{lcg_state, lemma_lcg_state_adds};
use crate::rowgen::{drawn_row, first_at, pairs_needed, sprnvc, vecset, lemma_first_at, HALF};
use crate::csr::{lemma_pattern_unique, Csr};
use crate::sparse::{capped, sparse, SparseError};
use crate::staging::{lemma_flat_index, Staging};

verus! {

/// Why a matrix could not be synthesized.
#[derive(Clone, Copy, Debug, PartialEq, Eq)]
pub enum MakeaError {
    /// A row did not collect its columns within the allowed number of pairs.
    DrawsExhausted {
        /// The first row that fell short.
        row: usize,
    },
    /// The staged rows ask for more slots than the caller allows.
    SpaceExceeded {
        /// Number of matrix rows.
        rows: usize,
        /// Slots asked for, capped at `usize::MAX`.
        needed: usize,
        /// Slots allowed.
        capacity: usize,
    },
}

/// The first power of two, counting up from `p`, that is no less than `n`.
pub open spec fn ceil_pow2_from(p: int, n: int) -> int
    decreases 2 * n - p,
{
    if p >= n || p <= 0 {
        p
    } else {
        ceil_pow2_from(2 * p, n)
    }
}

/// The least power of two that is no less than `n`.
pub open spec fn ceil_pow2(n: int) -> int {
    ceil_pow2_from(1, n)
}

/// `p` is the power of two with exponent `g`, it is no less than `n`, and the
/// power of two before it, if `g > e`, is less than `n`.
pub open spec fn least_pow2(p: int, n: int, e: nat, g: nat) -> bool {
    &&& g >= e
    &&& p == pow2(g)
    &&& p >= n
    &&& g > e ==> pow2((g - 1) as nat) < n
}

/// Counting up from the power of two with exponent `e` ends on the least
/// power of two from there on that is no less than `n`.
proof fn lemma_ceil_pow2_from(e: nat, n: int)
    ensures
        exists|g: nat| #[trigger] least_pow2(ceil_pow2_from(pow2(e) as int, n), n, e, g),
    decreases 2 * n - pow2(e),
{
    vstd::arithmetic::power2::lemma_pow2_pos(e);
    if pow2(e) >= n {
        assert(least_pow2(ceil_pow2_from(pow2(e) as int, n), n, e, e));
    } else {
        lemma_pow2_unfold(e + 1);
        lemma_ceil_pow2_from(e + 1, n);
        let g = choose|g: nat| #[trigger]
            least_pow2(ceil_pow2_from(pow2(e + 1) as int, n), n, e + 1, g);
        assert(least_pow2(ceil_pow2_from(pow2(e) as int, n), n, e, g));
    }
}

/// `ceil_pow2(n)` is a power of two, no less than `n`, and the power of two
/// before it, if there is one, is less than `n`.
pub proof fn lemma_ceil_pow2(n: int)
    ensures
        exists|g: nat| #[trigger] least_pow2(ceil_pow2(n), n, 0, g),
{
    vstd::arithmetic::power2::lemma2_to64();
    lemma_ceil_pow2_from(0, n);
    let g = choose|g: nat| #[trigger] least_pow2(ceil_pow2_from(pow2(0) as int, n), n, 0, g);
    assert(least_pow2(ceil_pow2(n), n, 0, g));
}

/// Computes the least power of two that is no less than `n`.
pub fn pow2_ceiling(n: usize) -> (nn1: u64)
    requires
        n <= i32::MAX,
    ensures
        nn1 == ceil_pow2(n as int),
        1 <= nn1 < 0x1_0000_0000,
        nn1 >= n,
{
    let mut nn1: u64 = 1;
    while nn1 < n as u64
        invariant
            n <= i32::MAX,
            1 <= nn1 < 0x1_0000_0000,
            ceil_pow2_from(nn1 as int, n as int) == ceil_pow2(n as int),
        decreases 2 * n - nn1,
    {
        nn1 = 2 * nn1;
    }
    nn1
}

/// The first position among the leading `m` of `row` whose column is `c`, or
/// `m` if there is none.
pub open spec fn first_col_at(row: Seq<(int, int)>, m: int, c: int) -> int
    decreases m,
{
    if m <= 0 {
        0
    } else {
        let f = first_col_at(row, m - 1, c);
        if f < m - 1 {
            f
        } else if row[m - 1].0 == c {
            m - 1
        } else {
            m
        }
    }
}

/// `row` with the value of column `c` forced to one half: the first entry
/// with that column is overwritten, or a new entry is appended.
pub open spec fn with_diagonal(row: Seq<(int, int)>, c: int) -> Seq<(int, int)> {
    let k = first_col_at(row, row.len() as int, c);
    if k < row.len() {
        row.update(k, (c, HALF as int))
    } else {
        row.push((c, HALF as int))
    }
}

/// The seed from which row `i` draws, when the first row draws from `x`.
pub open spec fn row_seed(x: int, a: int, nn1: int, n: int, nz: nat, limit: nat, i: nat) -> int
    decreases i,
{
    if i == 0 {
        x
    } else {
        let s = row_seed(x, a, nn1, n, nz, limit, (i - 1) as nat);
        lcg_state(s, a, 2 * pairs_needed(s, a, nn1, n, nz, limit))
    }
}

/// The pairs that the rows before row `i` consume.
pub open spec fn pairs_before(x: int, a: int, nn1: int, n: int, nz: nat, limit: nat, i: nat) -> nat
    decreases i,
{
    if i == 0 {
        0
    } else {
        let j = (i - 1) as nat;
        pairs_before(x, a, nn1, n, nz, limit, j) + pairs_needed(
            row_seed(x, a, nn1, n, nz, limit, j),
            a,
            nn1,
            n,
            nz,
            limit,
        )
    }
}

/// The seed of a row is a jump ahead of the first seed by the draws that the
/// rows before it consume: a worker that knows the count can start at its row
/// without drawing for the rows before.
pub proof fn lemma_row_seed_is_a_jump(x: int, a: int, nn1: int, n: int, nz: nat, limit: nat, i: nat)
    ensures
        row_seed(x, a, nn1, n, nz, limit, i) == lcg_state(
            x,
            a,
            2 * pairs_before(x, a, nn1, n, nz, limit, i),
        ),
    decreases i,
{
    if i > 0 {
        let j = (i - 1) as nat;
        lemma_row_seed_is_a_jump(x, a, nn1, n, nz, limit, j);
        let before = pairs_before(x, a, nn1, n, nz, limit, j);
        let here = pairs_needed(row_seed(x, a, nn1, n, nz, limit, j), a, nn1, n, nz, limit);
        lemma_lcg_state_adds(x, a, 2 * before, 2 * here);
    }
}

/// Row `i` collects all `nz` columns within the allowed number of pairs.
pub open spec fn row_found(x: int, a: int, nn1: int, n: int, nz: nat, limit: nat, i: nat) -> bool {
    drawn_row(row_seed(x, a, nn1, n, nz, limit, i), a, nn1, n, nz, limit).len() == nz
}

/// Row `i` as staged: the columns drawn for it, one-based, with the diagonal
/// column `i + 1` forced to one half.
pub open spec fn staged_row(x: int, a: int, nn1: int, n: int, nz: nat, limit: nat, i: nat) -> Seq<
    (int, int),
> {
    with_diagonal(drawn_row(row_seed(x, a, nn1, n, nz, limit, i), a, nn1, n, nz, limit), (i + 1) as int)
}

/// Slab `i` of the staging holds `row`, with columns shifted to zero-based.
pub open spec fn row_matches(st: &Staging, i: int, row: Seq<(int, int)>) -> bool {
    &&& st.arow[i] == row.len()
    &&& forall|k: int|
        0 <= k < row.len() ==> #[trigger] st.col(i, k) == row[k].0 - 1 && st.elt(i, k) == row[k].1
}

/// The first `m` slabs of the staging hold the rows that the stream that
/// starts at `x` produces for an `n`-column matrix.
pub open spec fn staged_from(st: &Staging, x: int, a: int, nz: nat, limit: nat, m: int) -> bool {
    &&& st.stride == nz + 1
    &&& forall|i: nat|
        i < m ==> #[trigger] row_matches(
            st,
            i as int,
            staged_row(x, a, ceil_pow2(st.n as int), st.n as int, nz, limit, i),
        )
}

/// The two ways of finding the first entry with column `c` agree when the
/// columns agree.
proof fn lemma_first_agrees(cols: Seq<i32>, row: Seq<(int, int)>, m: int, c: int)
    requires
        0 <= m <= row.len(),
        forall|k: int| 0 <= k < m ==> cols[k] == row[k].0,
    ensures
        first_at(cols, m, c) == first_col_at(row, m, c),
    decreases m,
{
    if m > 0 {
        lemma_first_agrees(cols, row, m - 1, c);
    }
}

/// Slabs do not overlap: a slot of an earlier slab lies before every later
/// slab.
proof fn lemma_slab_before(i1: int, k: int, i2: int, stride: int)
    by (nonlinear_arith)
    requires
        0 <= i1 < i2,
        0 <= k < stride,
    ensures
        i1 * stride + k < i2 * stride,
{
}

/// Slab `i` of the staging holds the leading `m` pairs of `ivc` and `vc`,
/// with columns shifted to zero-based.
pub open spec fn slab_holds(st: &Staging, i: int, m: int, ivc: Seq<i32>, vc: Seq<u64>) -> bool {
    forall|k: int| 0 <= k < m ==> #[trigger] st.col(i, k) == ivc[k] - 1 && st.elt(i, k) == vc[k]
}

/// Copies the leading `nzv` pairs of a finished row into slab `i`, shifting
/// the columns to zero-based.
fn store_row(st: &mut Staging, i: usize, nzv: usize, ivc: &Vec<i32>, vc: &Vec<u64>)
    requires
        i < old(st).n,
        nzv <= old(st).stride,
        nzv <= ivc.len(),
        nzv <= vc.len(),
        old(st).arow.len() == old(st).n,
        old(st).acol.len() == old(st).n * old(st).stride,
        old(st).aelt.len() == old(st).n * old(st).stride,
        forall|k: int| 0 <= k < nzv ==> 1 <= #[trigger] ivc[k],
    ensures
        final(st).n == old(st).n,
        final(st).stride == old(st).stride,
        final(st).arow@ == old(st).arow@.update(i as int, nzv),
        final(st).acol.len() == old(st).acol.len(),
        final(st).aelt.len() == old(st).aelt.len(),
        forall|x: int|
            0 <= x < i * old(st).stride || (i + 1) * old(st).stride <= x < old(st).acol.len()
                ==> final(st).acol[x] == old(st).acol[x] && final(st).aelt[x] == old(st).aelt[x],
        slab_holds(final(st), i as int, nzv as int, ivc@, vc@),
{
    let stride = st.stride;
    proof {
        lemma_flat_index(i as int, 0, st.n as int, stride as int + 1);
        assert((i + 1) * stride <= st.n * stride) by (nonlinear_arith)
            requires
                i + 1 <= st.n,
                0 <= stride,
        ;
        assert((i + 1) * stride == i * stride + stride) by (nonlinear_arith);
        assert(0 <= i * stride) by (nonlinear_arith)
            requires
                0 <= i,
                0 <= stride,
        ;
    }
    let base: usize = i * stride;
    st.arow[i] = nzv;
    let mut k: usize = 0;
    while k < nzv
        invariant
            k <= nzv <= stride,
            nzv <= ivc.len(),
            nzv <= vc.len(),
            base == i * stride,
            base + stride <= st.acol.len(),
            stride == st.stride,
            st.n == old(st).n,
            st.stride == old(st).stride,
            st.arow@ == old(st).arow@.update(i as int, nzv),
            st.acol.len() == old(st).acol.len(),
            st.aelt.len() == old(st).aelt.len(),
            st.aelt.len() == st.acol.len(),
            forall|m: int| 0 <= m < nzv ==> 1 <= #[trigger] ivc[m],
            forall|x: int|
                0 <= x < base || base + k <= x < st.acol.len() ==> st.acol[x] == old(st).acol[x]
                    && st.aelt[x] == old(st).aelt[x],
            forall|x: int|
                base <= x < base + k ==> #[trigger] st.acol[x] == ivc[x - base] - 1 && st.aelt[x]
                    == vc[x - base],
        decreases nzv - k,
    {
        let c: i32 = ivc[k] - 1;
        let e: u64 = vc[k];
        st.acol[base + k] = c;
        st.aelt[base + k] = e;
        k += 1;
    }
    proof {
        assert forall|m: int| 0 <= m < nzv implies #[trigger] st.col(i as int, m) == ivc[m] - 1
            && st.elt(i as int, m) == vc[m] by {
            assert(st.acol[base + m] == ivc[(base + m) - base] - 1);
            assert(st.aelt[base + m] == vc[(base + m) - base]);
        }
        assert(slab_holds(st, i as int, nzv as int, ivc@, vc@));
    }
}

/// Draws one row after the other from the stream and stages them, each with
/// its diagonal column forced to one half.
///
/// Columns are mapped with the least power of two that is no less than `n`.
/// Stops at the first row that cannot collect `nonzer` distinct columns within
/// `limit` pairs.
pub fn stage_rows(n: usize, nonzer: usize, tran: &mut u64, amult: u64, limit: u64) -> (res: Result<
    Staging,
    MakeaError,
>)
    requires
        n <= i32::MAX,
        nonzer < usize::MAX,
        n * (nonzer + 1) <= usize::MAX,
    ensures
        ({
            let x = *old(tran) as int;
            let a = amult as int;
            let w = ceil_pow2(n as int);
            let nz = nonzer as nat;
            let lim = limit as nat;
            match res {
                Ok(st) => {
                    &&& st.wf()
                    &&& st.n == n
                    &&& staged_from(&st, x, a, nz, lim, n as int)
                    &&& forall|i: nat| i < n ==> row_found(x, a, w, n as int, nz, lim, i)
                    &&& *final(tran) == row_seed(x, a, w, n as int, nz, lim, n as nat)
                },
                Err(e) => {
                    &&& e matches MakeaError::DrawsExhausted { row }
                    &&& row < n
                    &&& !row_found(x, a, w, n as int, nz, lim, row as nat)
                    &&& forall|i: nat| i < row ==> row_found(x, a, w, n as int, nz, lim, i)
                    &&& *final(tran) == row_seed(x, a, w, n as int, nz, lim, (row + 1) as nat)
                },
            }
        }),
{
    let nn1: u64 = pow2_ceiling(n);
    let stride: usize = nonzer + 1;
    let mut ivc: Vec<i32> = vec![0i32; stride];
    let mut vc: Vec<u64> = vec![0u64; stride];
    let mut st = Staging {
        n,
        stride,
        arow: vec![0usize; n],
        acol: vec![0i32; n * stride],
        aelt: vec![0u64; n * stride],
    };
    let ghost x = *tran as int;
    let ghost a = amult as int;
    let ghost w = nn1 as int;
    let ghost nz = nonzer as nat;
    let ghost lim = limit as nat;
    let mut i: usize = 0;
    while i < n
        invariant
            i <= n <= i32::MAX,
            stride == nonzer + 1,
            ivc.len() == stride,
            vc.len() == stride,
            x == *old(tran) as int,
            a == amult as int,
            w == nn1 as int,
            w == ceil_pow2(n as int),
            nz == nonzer as nat,
            lim == limit as nat,
            st.wf(),
            st.n == n,
            st.stride == stride,
            forall|r: int| i <= r < n ==> #[trigger] st.arow[r] == 0,
            staged_from(&st, x, a, nz, lim, i as int),
            forall|r: nat| r < i ==> row_found(x, a, w, n as int, nz, lim, r),
            *tran == row_seed(x, a, w, n as int, nz, lim, i as nat),
        decreases n - i,
    {
        let ghost seed = *tran as int;
        let ghost row = drawn_row(seed, a, w, n as int, nz, lim);
        let found = sprnvc(n, nonzer, nn1, &mut vc, &mut ivc, tran, amult, limit);
        proof {
            assert(*tran == row_seed(x, a, w, n as int, nz, lim, (i + 1) as nat));
        }
        if !found {
            return Err(MakeaError::DrawsExhausted { row: i });
        }
        let mut nzv: usize = nonzer;
        let ghost ivc0 = ivc@;
        let ghost vc0 = vc@;
        proof {
            lemma_first_at(ivc@, nonzer as int, i + 1);
            lemma_first_agrees(ivc@, row, nonzer as int, i + 1);
        }
        vecset(&mut vc, &mut ivc, &mut nzv, (i + 1) as i32, HALF);
        let ghost st0 = st;
        proof {
            let k0 = first_at(ivc0, nonzer as int, i + 1);
            assert forall|k: int| 0 <= k < nzv implies 1 <= #[trigger] ivc[k] <= n by {
                if k != k0 {
                    assert(ivc[k] == ivc0[k]);
                }
            }
        }
        store_row(&mut st, i, nzv, &ivc, &vc);
        proof {
            let k0 = first_at(ivc0, nonzer as int, i + 1);
            let full = staged_row(x, a, w, n as int, nz, lim, i as nat);
            assert(full == with_diagonal(row, i + 1));
            assert(full.len() == nzv);
            assert forall|k: int| 0 <= k < nzv implies ivc[k] == full[k].0 && vc[k] == full[k].1 by {
                if k != k0 {
                    assert(ivc[k] == ivc0[k]);
                    assert(vc[k] == vc0[k]);
                }
            }
            assert(row_matches(&st, i as int, full));
            assert forall|r: int, k: int| 0 <= r < n && r != i && 0 <= k < stride implies st.col(r, k)
                == st0.col(r, k) && st.elt(r, k) == st0.elt(r, k) by {
                lemma_flat_index(r, k, n as int, stride as int);
                if r < i {
                    lemma_slab_before(r, k, i as int, stride as int);
                } else {
                    lemma_slab_before(i as int, 0, r, stride as int + 1);
                    assert((i + 1) * stride <= r * stride) by (nonlinear_arith)
                        requires
                            i + 1 <= r,
                            0 <= stride,
                    ;
                    assert(0 <= r * stride + k);
                }
            }
            assert forall|r: nat| r < i + 1 implies #[trigger] row_matches(
                &st,
                r as int,
                staged_row(x, a, ceil_pow2(st.n as int), st.n as int, nz, lim, r),
            ) by {
                if r < i {
                    let old_row = staged_row(x, a, w, n as int, nz, lim, r);
                    assert(row_matches(&st0, r as int, old_row));
                    assert(st0.arow[r as int] <= stride);
                    assert forall|k: int| 0 <= k < old_row.len() implies #[trigger] st.col(r as int, k)
                        == old_row[k].0 - 1 && st.elt(r as int, k) == old_row[k].1 by {
                        assert(st0.col(r as int, k) == old_row[k].0 - 1);
                    }
                }
            }
            assert forall|r: int, k: int| 0 <= r < st.n && 0 <= k < st.arow[r] implies 0
                <= #[trigger] st.col(r, k) < st.n by {
                if r == i {
                    assert(st.col(r, k) == ivc[k] - 1);
                } else {
                    assert(st0.arow[r] == st.arow[r]);
                    assert(st0.arow[r] <= stride);
                    assert(0 <= st0.col(r, k) < n);
                }
            }
        }
        i += 1;
    }
    Ok(st)
}

/// Synthesizes the matrix: stages `n` random rows of `nonzer` columns plus
/// diagonal, and assembles their pattern into at most `nz` slots.
///
/// The staged rows come back with the pattern: they hold the values from
/// which the cells of the matrix are summed.
pub fn makea(n: usize, nonzer: usize, nz: usize, tran: &mut u64, amult: u64, limit: u64) -> (res:
    Result<(Staging, Csr), MakeaError>)
    requires
        n <= i32::MAX,
        nonzer < usize::MAX,
        n * (nonzer + 1) <= usize::MAX,
    ensures
        ({
            let x = *old(tran) as int;
            let a = amult as int;
            let w = ceil_pow2(n as int);
            let k = nonzer as nat;
            let lim = limit as nat;
            match res {
                Ok((st, m)) => {
                    &&& st.wf()
                    &&& st.n == n
                    &&& staged_from(&st, x, a, k, lim, n as int)
                    &&& st.reserved_total() <= nz
                    &&& st.reserved_total() < usize::MAX
                    &&& m.wf()
                    &&& m.rows() == n
                    &&& forall|r: int, c: int|
                        0 <= r < n ==> (#[trigger] m.has(r, c) <==> st.linked(n as int, r, c))
                    &&& *final(tran) == row_seed(x, a, w, n as int, k, lim, n as nat)
                },
                Err(MakeaError::DrawsExhausted { row }) => {
                    &&& row < n
                    &&& !row_found(x, a, w, n as int, k, lim, row as nat)
                    &&& forall|i: nat| i < row ==> row_found(x, a, w, n as int, k, lim, i)
                    &&& *final(tran) == row_seed(x, a, w, n as int, k, lim, (row + 1) as nat)
                },
                Err(MakeaError::SpaceExceeded { rows, needed, capacity }) => {
                    &&& rows == n
                    &&& capacity == nz
                    &&& forall|i: nat| i < n ==> row_found(x, a, w, n as int, k, lim, i)
                    &&& *final(tran) == row_seed(x, a, w, n as int, k, lim, n as nat)
                    &&& exists|st: Staging|
                        {
                            &&& st.wf()
                            &&& st.n == n
                            &&& #[trigger] staged_from(&st, x, a, k, lim, n as int)
                            &&& needed == capped(st.reserved_total())
                            &&& (st.reserved_total() > nz || st.reserved_total() >= usize::MAX)
                        }
                },
            }
        }),
{
    let st = match stage_rows(n, nonzer, tran, amult, limit) {
        Ok(st) => st,
        Err(e) => {
            return Err(e);
        },
    };
    match sparse(&st, nz) {
        Ok(m) => Ok((st, m)),
        Err(SparseError::SpaceExceeded { rows, needed, capacity }) => {
            proof {
                assert(staged_from(&st, *old(tran) as int, amult as int, nonzer as nat, limit as nat, n as int));
            }
            Err(MakeaError::SpaceExceeded { rows, needed, capacity })
        },
    }
}

/// Staged rows that agree slot by slot couple the same cells.
proof fn lemma_same_links(st1: &Staging, st2: &Staging, r: int, c: int)
    requires
        st1.n == st2.n,
        st1.arow@ == st2.arow@,
        st1.arow.len() == st1.n,
        forall|i: int, k: int|
            0 <= i < st1.n && 0 <= k < st1.arow[i] ==> #[trigger] st1.col(i, k) == st2.col(i, k),
    ensures
        st1.linked(st1.n as int, r, c) ==> st2.linked(st2.n as int, r, c),
{
    if st1.linked(st1.n as int, r, c) {
        let i = choose|i: int| 0 <= i < st1.n && st1.couples(i, r, c);
        let w = st1.arow[i] as int;
        let kr = choose|k: int| 0 <= k < w && st1.col(i, k) == r;
        let kc = choose|k: int| 0 <= k < w && st1.col(i, k) == c;
        assert(st2.col(i, kr) == r);
        assert(st2.col(i, kc) == c);
        assert(st2.occurs(i, w, r));
        assert(st2.occurs(i, w, c));
        assert(st2.couples(i, r, c));
    }
}

/// Synthesis is a function of the stream: two runs from the same seed, with
/// the same multiplier, sizes and limit, stage the same rows and assemble the
/// same pattern, array for array.
pub proof fn lemma_synthesis_deterministic(
    st1: &Staging,
    m1: &Csr,
    st2: &Staging,
    m2: &Csr,
    x: int,
    a: int,
    nz: nat,
    limit: nat,
)
    requires
        st1.wf(),
        st2.wf(),
        st1.n == st2.n,
        staged_from(st1, x, a, nz, limit, st1.n as int),
        staged_from(st2, x, a, nz, limit, st2.n as int),
        m1.wf(),
        m2.wf(),
        m1.rows() == st1.n,
        m2.rows() == st2.n,
        forall|r: int, c: int|
            0 <= r < st1.n ==> (#[trigger] m1.has(r, c) <==> st1.linked(st1.n as int, r, c)),
        forall|r: int, c: int|
            0 <= r < st2.n ==> (#[trigger] m2.has(r, c) <==> st2.linked(st2.n as int, r, c)),
    ensures
        st1.arow@ == st2.arow@,
        forall|i: int, k: int|
            0 <= i < st1.n && 0 <= k < st1.arow[i] ==> #[trigger] st1.col(i, k) == st2.col(i, k)
                && st1.elt(i, k) == st2.elt(i, k),
        m1.row_ptr@ == m2.row_ptr@,
        m1.col_index@ == m2.col_index@,
{
    let n = st1.n as int;
    let w = ceil_pow2(n);
    assert forall|i: int| 0 <= i < n implies st1.arow[i] == st2.arow[i] by {
        let ii = i as nat;
        assert(row_matches(st1, ii as int, staged_row(x, a, ceil_pow2(st1.n as int), st1.n as int, nz, limit, ii)));
        assert(row_matches(st2, ii as int, staged_row(x, a, ceil_pow2(st2.n as int), st2.n as int, nz, limit, ii)));
    }
    assert forall|i: int, k: int| 0 <= i < st1.n && 0 <= k < st1.arow[i] implies #[trigger] st1.col(
        i,
        k,
    ) == st2.col(i, k) && st1.elt(i, k) == st2.elt(i, k) by {
        let ii = i as nat;
        let row = staged_row(x, a, w, n, nz, limit, ii);
        assert(row_matches(st1, ii as int, staged_row(x, a, ceil_pow2(st1.n as int), st1.n as int, nz, limit, ii)));
        assert(row_matches(st2, ii as int, staged_row(x, a, ceil_pow2(st2.n as int), st2.n as int, nz, limit, ii)));
        assert(st1.col(i, k) == row[k].0 - 1);
        assert(st2.col(i, k) == row[k].0 - 1);
    }
    assert(st1.arow@ =~= st2.arow@);
    assert forall|r: int, c: int| 0 <= r < n implies (m1.has(r, c) <==> m2.has(r, c)) by {
        lemma_same_links(st1, st2, r, c);
        lemma_same_links(st2, st1, r, c);
    }
    lemma_pattern_unique(m1, m2);
}
} // verus!
