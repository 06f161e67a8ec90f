//! Insertion of one column into the slots of one matrix row.

use vstd::prelude::*;

verus! {

/// Marks a slot that holds no column yet.
pub const EMPTY: i32 = -1;

/// Slots `lo..hi` of `cols` hold `f` ascending columns below `n`, then only
/// empty slots.
pub open spec fn seg_ok(cols: Seq<i32>, lo: int, hi: int, f: int, n: int) -> bool {
    &&& 0 <= lo <= lo + f <= hi <= cols.len()
    &&& forall|k: int| lo <= k < lo + f ==> 0 <= #[trigger] cols[k] < n
    &&& forall|k: int, l: int| lo <= k < l < lo + f ==> cols[k] < cols[l]
    &&& forall|k: int| lo + f <= k < hi ==> #[trigger] cols[k] == EMPTY
}

/// One of the `f` slots from `lo` on holds column `c`.
pub open spec fn seg_has(cols: Seq<i32>, lo: int, f: int, c: int) -> bool {
    exists|k: int| lo <= k < lo + f && cols[k] == c
}

/// Puts column `jcol` into the row stored in slots `lo..hi`.
///
/// The filled slots are scanned in ascending order. At the first column
/// greater than `jcol` the rest of the row moves one slot to the right and
/// `jcol` takes the gap; at the first empty slot `jcol` is appended; if `jcol`
/// is met, nothing changes and the result is `true`.
pub(crate) fn insert_col(
    cols: &mut Vec<i32>,
    lo: usize,
    hi: usize,
    jcol: i32,
    Ghost(f): Ghost<int>,
    Ghost(n): Ghost<int>,
) -> (merged: bool)
    requires
        seg_ok(old(cols)@, lo as int, hi as int, f, n),
        0 <= jcol < n,
        seg_has(old(cols)@, lo as int, f, jcol as int) || lo + f < hi,
    ensures
        final(cols).len() == old(cols).len(),
        forall|k: int| 0 <= k < lo || hi <= k < old(cols).len() ==> final(cols)[k] == old(cols)[k],
        merged == seg_has(old(cols)@, lo as int, f, jcol as int),
        merged ==> final(cols)@ == old(cols)@,
        !merged ==> seg_ok(final(cols)@, lo as int, hi as int, f + 1, n),
        !merged ==> forall|c: int| #[trigger]
            seg_has(final(cols)@, lo as int, f + 1, c) <==> (seg_has(old(cols)@, lo as int, f, c)
                || c == jcol),
{
    let ghost s0 = cols@;
    let mut k: usize = lo;
    while k < hi
        invariant
            cols@ == s0,
            s0 == old(cols)@,
            lo <= k <= hi,
            k <= lo + f,
            seg_ok(s0, lo as int, hi as int, f, n),
            0 <= jcol < n,
            forall|m: int| lo <= m < k ==> s0[m] < jcol,
            seg_has(s0, lo as int, f, jcol as int) || lo + f < hi,
        decreases hi - k,
    {
        let cur: i32 = cols[k];
        if cur > jcol {
            proof {
                assert(k < lo + f);
                assert(!seg_has(s0, lo as int, f, jcol as int)) by {
                    assert forall|m: int| lo <= m < lo + f implies s0[m] != jcol by {
                        if m > k {
                            assert(s0[k as int] < s0[m]);
                        }
                    }
                }
            }
            let mut kk: usize = hi - 1;
            while kk > k
                invariant
                    k <= kk < hi,
                    lo <= k < lo + f < hi,
                    cols.len() == s0.len(),
                    seg_ok(s0, lo as int, hi as int, f, n),
                    forall|m: int| 0 <= m <= kk ==> cols[m] == s0[m],
                    forall|m: int| kk < m <= lo + f ==> cols[m] == s0[m - 1],
                    forall|m: int| lo + f < m < cols.len() ==> cols[m] == s0[m],
                decreases kk,
            {
                let moved: i32 = cols[kk - 1];
                proof {
                    assert(moved == s0[kk - 1]);
                    if kk - 1 >= lo + f {
                        assert(s0[kk - 1] == EMPTY);
                    }
                }
                if moved > EMPTY {
                    cols[kk] = moved;
                }
                kk -= 1;
            }
            cols[k] = jcol;
            proof {
                let s1 = cols@;
                assert(forall|m: int| 0 <= m < k ==> s1[m] == s0[m]);
                assert(s1[k as int] == jcol);
                assert(forall|m: int| k < m <= lo + f ==> s1[m] == s0[m - 1]);
                assert(forall|m: int| lo + f < m < s1.len() ==> s1[m] == s0[m]);
                assert(forall|m: int| lo <= m < k ==> s0[m] < jcol);
                assert(seg_ok(s1, lo as int, hi as int, f + 1, n)) by {
                    assert forall|m: int, l: int| lo <= m < l < lo + f + 1 implies s1[m] < s1[l] by {
                        if l < k {
                        } else if l == k {
                        } else if m < k {
                            assert(s0[m] < jcol);
                            assert(s0[k as int] <= s0[l - 1]);
                        } else if m == k {
                            assert(s0[k as int] <= s0[l - 1]);
                        } else {
                            assert(s0[m - 1] < s0[l - 1]);
                        }
                    }
                }
                assert forall|c: int| #[trigger]
                    seg_has(s1, lo as int, f + 1, c) <==> (seg_has(s0, lo as int, f, c) || c
                        == jcol) by {
                    if seg_has(s1, lo as int, f + 1, c) {
                        let m = choose|m: int| lo <= m < lo + f + 1 && s1[m] == c;
                        if m < k {
                            assert(s0[m] == c);
                        } else if m > k {
                            assert(s0[m - 1] == c);
                        }
                    }
                    if seg_has(s0, lo as int, f, c) {
                        let m = choose|m: int| lo <= m < lo + f && s0[m] == c;
                        if m < k {
                            assert(s1[m] == c);
                        } else {
                            assert(s1[m + 1] == c);
                        }
                    }
                    if c == jcol {
                        assert(s1[k as int] == c);
                    }
                }
            }
            return false;
        } else if cur == EMPTY {
            proof {
                assert(k == lo + f);
                assert(!seg_has(s0, lo as int, f, jcol as int));
            }
            cols[k] = jcol;
            proof {
                let s1 = cols@;
                assert forall|c: int| #[trigger]
                    seg_has(s1, lo as int, f + 1, c) <==> (seg_has(s0, lo as int, f, c) || c
                        == jcol) by {
                    if seg_has(s1, lo as int, f + 1, c) {
                        let m = choose|m: int| lo <= m < lo + f + 1 && s1[m] == c;
                        if m < k {
                            assert(s0[m] == c);
                        }
                    }
                    if seg_has(s0, lo as int, f, c) {
                        let m = choose|m: int| lo <= m < lo + f && s0[m] == c;
                        assert(s1[m] == c);
                    }
                    if c == jcol {
                        assert(s1[k as int] == c);
                    }
                }
            }
            return false;
        } else if cur == jcol {
            proof {
                assert(k < lo + f);
                assert(s0[k as int] == jcol);
            }
            return true;
        }
        k += 1;
    }
    proof {
        assert(lo + f == hi);
        assert(!seg_has(s0, lo as int, f, jcol as int));
        assert(false);
    }
    false
}
} // verus!
