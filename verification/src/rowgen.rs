//! Random sparse rows: a fixed number of distinct columns per row, each with
//! a value, drawn pairwise from the generator's stream.
//!
//! Pair `j` of a stream consumes draws `2j + 1` (the value) and `2j + 2` (the
//! location). A pair is *fresh* when its column lies inside the matrix and
//! no earlier pair of the row landed on the same column; a row keeps the
//! fresh pairs, in the order drawn.

use vstd::prelude::*;
use crate::randdp::{lcg_state, randlc, R46};

verus! {

/// The value `1/2` as a numerator over `2^46`.
pub const HALF: u64 = 0x2000_0000_0000;

/// The integer part of `ipwr2 * x / 2^46`.
pub open spec fn scale_draw(x: int, ipwr2: int) -> int {
    (ipwr2 * x) / (R46 as int)
}

/// The value of pair `j` of the stream that starts at `x`.
pub open spec fn pair_value(x: int, a: int, j: nat) -> int {
    lcg_state(x, a, 2 * j + 1)
}

/// The 1-based column of pair `j` of the stream that starts at `x`.
pub open spec fn pair_column(x: int, a: int, nn1: int, j: nat) -> int {
    scale_draw(lcg_state(x, a, 2 * j + 2), nn1) + 1
}

/// Pair `j` lands inside an `n`-column matrix on a column that no earlier
/// pair has landed on.
pub open spec fn is_fresh(x: int, a: int, nn1: int, n: int, j: nat) -> bool {
    &&& pair_column(x, a, nn1, j) <= n
    &&& forall|i: nat| i < j ==> pair_column(x, a, nn1, i) != pair_column(x, a, nn1, j)
}

/// The fresh pairs among the first `t`, as `(column, value)` in drawing order.
pub open spec fn accepted(x: int, a: int, nn1: int, n: int, t: nat) -> Seq<(int, int)>
    decreases t,
{
    if t == 0 {
        Seq::empty()
    } else {
        let j = (t - 1) as nat;
        let s = accepted(x, a, nn1, n, j);
        if is_fresh(x, a, nn1, n, j) {
            s.push((pair_column(x, a, nn1, j), pair_value(x, a, j)))
        } else {
            s
        }
    }
}

/// The least `u >= t` at which `nz` fresh pairs have been seen, or `limit`
/// if that comes first.
pub open spec fn pairs_until(x: int, a: int, nn1: int, n: int, nz: nat, limit: nat, t: nat) -> nat
    decreases limit - t,
{
    if t >= limit || accepted(x, a, nn1, n, t).len() >= nz {
        t
    } else {
        pairs_until(x, a, nn1, n, nz, limit, t + 1)
    }
}

/// How many pairs a row of `nz` columns consumes when at most `limit` pairs
/// may be drawn.
pub open spec fn pairs_needed(x: int, a: int, nn1: int, n: int, nz: nat, limit: nat) -> nat {
    pairs_until(x, a, nn1, n, nz, limit, 0)
}

/// The row that `pairs_needed` pairs produce.
pub open spec fn drawn_row(x: int, a: int, nn1: int, n: int, nz: nat, limit: nat) -> Seq<(int, int)> {
    accepted(x, a, nn1, n, pairs_needed(x, a, nn1, n, nz, limit))
}

/// `pairs_until` stops at the first count of pairs from `t` on at which `nz`
/// fresh pairs have been seen, and never beyond `limit`.
pub proof fn lemma_pairs_until(x: int, a: int, nn1: int, n: int, nz: nat, limit: nat, t: nat)
    requires
        t <= limit,
        forall|u: nat| u < t ==> (#[trigger] accepted(x, a, nn1, n, u)).len() < nz,
    ensures
        t <= pairs_until(x, a, nn1, n, nz, limit, t) <= limit,
        pairs_until(x, a, nn1, n, nz, limit, t) == limit || accepted(
            x,
            a,
            nn1,
            n,
            pairs_until(x, a, nn1, n, nz, limit, t),
        ).len() >= nz,
        forall|u: nat|
            u < pairs_until(x, a, nn1, n, nz, limit, t) ==> (#[trigger] accepted(x, a, nn1, n, u)).len()
                < nz,
    decreases limit - t,
{
    if !(t >= limit || accepted(x, a, nn1, n, t).len() >= nz) {
        lemma_pairs_until(x, a, nn1, n, nz, limit, t + 1);
    }
}

/// A row consumes the least number of pairs that yields `nz` fresh ones, or
/// all `limit` pairs if that many do not yield them; it never keeps more
/// than `nz`.
pub proof fn lemma_pairs_needed(x: int, a: int, nn1: int, n: int, nz: nat, limit: nat)
    ensures
        pairs_needed(x, a, nn1, n, nz, limit) <= limit,
        drawn_row(x, a, nn1, n, nz, limit).len() <= nz,
        drawn_row(x, a, nn1, n, nz, limit).len() == nz || pairs_needed(x, a, nn1, n, nz, limit)
            == limit,
        forall|u: nat|
            u < pairs_needed(x, a, nn1, n, nz, limit) ==> (#[trigger] accepted(x, a, nn1, n, u)).len()
                < nz,
{
    lemma_pairs_until(x, a, nn1, n, nz, limit, 0);
    let t = pairs_needed(x, a, nn1, n, nz, limit);
    if t > 0 {
        assert(accepted(x, a, nn1, n, (t - 1) as nat).len() < nz);
    }
}

/// Some pair before `t` lands on column `c`.
pub open spec fn landed(x: int, a: int, nn1: int, t: nat, c: int) -> bool {
    exists|j: nat| j < t && pair_column(x, a, nn1, j) == c
}

/// One of the leading `m` entries of `cols` is `c`.
pub open spec fn holds(cols: Seq<i32>, m: int, c: int) -> bool {
    exists|k: int| 0 <= k < m && cols[k] == c
}

/// The first position among the leading `m` of `cols` that holds `c`, or `m`
/// if none does.
pub open spec fn first_at(cols: Seq<i32>, m: int, c: int) -> int
    decreases m,
{
    if m <= 0 {
        0
    } else {
        let f = first_at(cols, m - 1, c);
        if f < m - 1 {
            f
        } else if cols[m - 1] == c {
            m - 1
        } else {
            m
        }
    }
}

/// `first_at` is the least position that holds `c`.
pub proof fn lemma_first_at(cols: Seq<i32>, m: int, c: int)
    requires
        0 <= m,
    ensures
        0 <= first_at(cols, m, c) <= m,
        first_at(cols, m, c) < m ==> cols[first_at(cols, m, c)] == c,
        forall|k: int| 0 <= k < first_at(cols, m, c) ==> cols[k] != c,
    decreases m,
{
    if m > 0 {
        lemma_first_at(cols, m - 1, c);
    }
}

/// Scales a draw by `ipwr2` and drops the fraction.
pub fn icnvrt(x: u64, ipwr2: u64) -> (r: u64)
    requires
        x < R46,
    ensures
        r == scale_draw(x as int, ipwr2 as int),
        r <= ipwr2,
        ipwr2 > 0 ==> r < ipwr2,
{
    assert(ipwr2 * x <= 0xffff_ffff_ffff_ffff * 0x4000_0000_0000) by (nonlinear_arith)
        requires
            0 <= ipwr2 <= 0xffff_ffff_ffff_ffff,
            0 <= x <= 0x4000_0000_0000,
    ;
    let wide: u128 = (ipwr2 as u128) * (x as u128);
    let q: u128 = wide / (R46 as u128);
    proof {
        let m = R46 as int;
        assert(ipwr2 * x <= ipwr2 * (m - 1)) by (nonlinear_arith)
            requires
                0 <= x <= m - 1,
                0 <= ipwr2,
        ;
        assert(ipwr2 * (m - 1) == ipwr2 * m - ipwr2) by (nonlinear_arith);
        if ipwr2 > 0 {
            vstd::arithmetic::div_mod::lemma_div_is_ordered(ipwr2 * x, ipwr2 * m - 1, m);
            vstd::arithmetic::div_mod::lemma_fundamental_div_mod_converse(ipwr2 * m - 1, m, ipwr2 - 1, m - 1);
        } else {
            assert(ipwr2 * x == 0);
        }
    }
    q as u64
}

/// The position of the first of the leading `m` entries of `iv` that equals
/// `c`, if any does.
pub fn find_col(iv: &Vec<i32>, m: usize, c: i32) -> (at: Option<usize>)
    requires
        m <= iv.len(),
    ensures
        match at {
            Some(k) => k < m && iv[k as int] == c && forall|i: int| 0 <= i < k ==> iv[i] != c,
            None => forall|i: int| 0 <= i < m ==> iv[i] != c,
        },
{
    let mut k: usize = 0;
    while k < m
        invariant
            k <= m <= iv.len(),
            forall|i: int| 0 <= i < k ==> iv[i] != c,
        decreases m - k,
    {
        if iv[k] == c {
            return Some(k);
        }
        k += 1;
    }
    None
}

/// Draws pairs until `nz` distinct columns within `1..=n` are collected, or
/// `limit` pairs have been drawn.
///
/// A pair whose column lies beyond `n`, or repeats a column already kept, is
/// dropped. The kept pairs fill the front of `iv` (columns) and `v` (values)
/// in drawing order. The result tells whether all `nz` were found.
pub fn sprnvc(
    n: usize,
    nz: usize,
    nn1: u64,
    v: &mut Vec<u64>,
    iv: &mut Vec<i32>,
    tran: &mut u64,
    amult: u64,
    limit: u64,
) -> (found: bool)
    requires
        nz <= old(v).len(),
        nz <= old(iv).len(),
        n <= i32::MAX,
    ensures
        ({
            let x = *old(tran) as int;
            let a = amult as int;
            let t = pairs_needed(x, a, nn1 as int, n as int, nz as nat, limit as nat);
            let row = drawn_row(x, a, nn1 as int, n as int, nz as nat, limit as nat);
            &&& *final(tran) == lcg_state(x, a, 2 * t)
            &&& row.len() <= nz
            &&& found == (row.len() == nz)
            &&& final(v).len() == old(v).len()
            &&& final(iv).len() == old(iv).len()
            &&& forall|k: int| 0 <= k < row.len() ==> final(iv)[k] == row[k].0 && final(v)[k] == row[k].1
            &&& forall|k: int| row.len() <= k < old(iv).len() ==> final(iv)[k] == old(iv)[k]
            &&& forall|k: int| row.len() <= k < old(v).len() ==> final(v)[k] == old(v)[k]
            &&& forall|k: int| 0 <= k < row.len() ==> 1 <= #[trigger] final(iv)[k] <= n
            &&& forall|k: int, l: int| 0 <= k < l < row.len() ==> final(iv)[k] != final(iv)[l]
        }),
{
    let ghost x = *tran as int;
    let ghost a = amult as int;
    let ghost w = nn1 as int;
    let ghost nn = n as int;
    let mut nzv: usize = 0;
    let mut t: u64 = 0;
    while nzv < nz && t < limit
        invariant
            nzv <= nz,
            t <= limit,
            n <= i32::MAX,
            nz <= v.len(),
            nz <= iv.len(),
            v.len() == old(v).len(),
            iv.len() == old(iv).len(),
            x == *old(tran) as int,
            a == amult as int,
            w == nn1 as int,
            nn == n as int,
            *tran == lcg_state(x, a, 2 * (t as nat)),
            accepted(x, a, w, nn, t as nat).len() == nzv,
            pairs_until(x, a, w, nn, nz as nat, limit as nat, t as nat) == pairs_needed(
                x,
                a,
                w,
                nn,
                nz as nat,
                limit as nat,
            ),
            forall|k: int|
                0 <= k < nzv ==> iv[k] == accepted(x, a, w, nn, t as nat)[k].0 && v[k] == accepted(
                    x,
                    a,
                    w,
                    nn,
                    t as nat,
                )[k].1,
            forall|k: int| nzv <= k < iv.len() ==> iv[k] == old(iv)[k],
            forall|k: int| nzv <= k < v.len() ==> v[k] == old(v)[k],
            forall|k: int| 0 <= k < nzv ==> 1 <= #[trigger] iv[k] <= n,
            forall|k: int, l: int| 0 <= k < l < nzv ==> iv[k] != iv[l],
            forall|j: nat|
                j < t && #[trigger] pair_column(x, a, w, j) <= nn ==> holds(
                    iv@,
                    nzv as int,
                    pair_column(x, a, w, j),
                ),
            forall|k: int| 0 <= k < nzv ==> landed(x, a, w, t as nat, #[trigger] iv[k] as int),
        decreases limit - t,
    {
        let ghost j = t as nat;
        let ghost before = accepted(x, a, w, nn, j);
        let vecelt: u64 = randlc(tran, amult);
        let vecloc: u64 = randlc(tran, amult);
        let col: u64 = icnvrt(vecloc, nn1) + 1;
        proof {
            reveal_with_fuel(lcg_state, 3);
            assert(vecelt == pair_value(x, a, j));
            assert(col == pair_column(x, a, w, j));
            assert(*tran == lcg_state(x, a, 2 * ((t + 1) as nat)));
        }
        t = t + 1;
        if col <= n as u64 {
            let c: i32 = col as i32;
            let dup = find_col(iv, nzv, c);
            if dup.is_none() {
                proof {
                    assert forall|i: nat| i < j implies pair_column(x, a, w, i) != pair_column(
                        x,
                        a,
                        w,
                        j,
                    ) by {
                        if pair_column(x, a, w, i) == pair_column(x, a, w, j) {
                            assert(holds(iv@, nzv as int, pair_column(x, a, w, i)));
                        }
                    }
                    assert(is_fresh(x, a, w, nn, j));
                    assert(accepted(x, a, w, nn, t as nat) == before.push((col as int, vecelt as int)));
                }
                let ghost iv0 = iv@;
                v[nzv] = vecelt;
                iv[nzv] = c;
                nzv += 1;
                proof {
                    assert forall|jj: nat|
                        jj < t && #[trigger] pair_column(x, a, w, jj) <= nn implies holds(
                        iv@,
                        nzv as int,
                        pair_column(x, a, w, jj),
                    ) by {
                        if jj == j {
                            assert(iv@[nzv - 1] == pair_column(x, a, w, jj));
                        } else {
                            assert(holds(iv0, nzv - 1, pair_column(x, a, w, jj)));
                            let k = choose|k: int|
                                0 <= k < nzv - 1 && iv0[k] == pair_column(x, a, w, jj);
                            assert(iv@[k] == pair_column(x, a, w, jj));
                        }
                    }
                    assert forall|k: int| 0 <= k < nzv implies landed(
                        x,
                        a,
                        w,
                        t as nat,
                        #[trigger] iv[k] as int,
                    ) by {
                        if k == nzv - 1 {
                            assert(pair_column(x, a, w, j) == iv[k]);
                        } else {
                            assert(landed(x, a, w, j, iv0[k] as int));
                            let jj = choose|jj: nat| jj < j && pair_column(x, a, w, jj) == iv0[k];
                            assert(pair_column(x, a, w, jj) == iv[k]);
                        }
                    }
                }
            } else {
                proof {
                    let k = dup.unwrap() as int;
                    assert(landed(x, a, w, j, iv[k] as int));
                    assert(!is_fresh(x, a, w, nn, j));
                    assert(accepted(x, a, w, nn, t as nat) == before);
                    assert forall|k: int| 0 <= k < nzv implies landed(
                        x,
                        a,
                        w,
                        t as nat,
                        #[trigger] iv[k] as int,
                    ) by {
                        assert(landed(x, a, w, j, iv[k] as int));
                        let jj = choose|jj: nat| jj < j && pair_column(x, a, w, jj) == iv[k];
                        assert(pair_column(x, a, w, jj) == iv[k]);
                    }
                    assert(holds(iv@, nzv as int, pair_column(x, a, w, j))) by {
                        assert(iv@[k] == pair_column(x, a, w, j));
                    }
                }
            }
        } else {
            proof {
                assert(!is_fresh(x, a, w, nn, j));
                assert(accepted(x, a, w, nn, t as nat) == before);
                assert forall|k: int| 0 <= k < nzv implies landed(
                    x,
                    a,
                    w,
                    t as nat,
                    #[trigger] iv[k] as int,
                ) by {
                    assert(landed(x, a, w, j, iv[k] as int));
                    let jj = choose|jj: nat| jj < j && pair_column(x, a, w, jj) == iv[k];
                    assert(pair_column(x, a, w, jj) == iv[k]);
                }
            }
        }
    }
    nzv == nz
}

/// Gives column `i` of a row the value `val`.
///
/// If one of the leading `nzv` entries already has column `i`, the first such
/// entry takes the value; otherwise the pair is appended and `nzv` grows by
/// one.
pub fn vecset(v: &mut Vec<u64>, iv: &mut Vec<i32>, nzv: &mut usize, i: i32, val: u64)
    requires
        *old(nzv) <= old(v).len(),
        *old(nzv) <= old(iv).len(),
        first_at(old(iv)@, *old(nzv) as int, i as int) < old(v).len(),
        first_at(old(iv)@, *old(nzv) as int, i as int) < old(iv).len(),
    ensures
        ({
            let k = first_at(old(iv)@, *old(nzv) as int, i as int);
            &&& final(v)@ == old(v)@.update(k, val)
            &&& final(iv)@ == old(iv)@.update(k, i)
            &&& *final(nzv) == if k < *old(nzv) { *old(nzv) as int } else { *old(nzv) + 1 }
        }),
{
    proof {
        lemma_first_at(iv@, *nzv as int, i as int);
    }
    match find_col(iv, *nzv, i) {
        Some(k) => {
            v[k] = val;
            assert(iv@ == old(iv)@.update(k as int, i));
        },
        None => {
            let k: usize = *nzv;
            v[k] = val;
            iv[k] = i;
            *nzv = k + 1;
        },
    }
}
} // verus!
