//! The staging buffers that hold the random rows before assembly, and what
//! they say about the matrix to be built.
//!
//! Row `i` of the staging is a short list of columns with values. Every
//! pair `(r, c)` of columns that some staged row holds together becomes a cell
//! of the matrix: the matrix is a sum of outer products of the staged rows.

use vstd::prelude::*;

verus! {

/// Per-row lists of candidate columns and values, each in a slab of `stride`
/// slots.
pub struct Staging {
    /// Order of the matrix and number of staged rows.
    pub n: usize,
    /// Slots set aside for each row in `acol` and `aelt`.
    pub stride: usize,
    /// How many slots of each row are in use.
    pub arow: Vec<usize>,
    /// Zero-based columns, row after row.
    pub acol: Vec<i32>,
    /// Values as numerators over `2^46`, parallel to `acol`.
    pub aelt: Vec<u64>,
}

impl Staging {
    /// The column in slot `k` of row `i`.
    pub open spec fn col(&self, i: int, k: int) -> int {
        self.acol@[i * self.stride + k] as int
    }

    /// The value in slot `k` of row `i`.
    pub open spec fn elt(&self, i: int, k: int) -> int {
        self.aelt@[i * self.stride + k] as int
    }

    /// The buffers have the sizes their header announces, no row uses more
    /// than its slab, and every column in use lies inside the matrix.
    pub open spec fn wf(&self) -> bool {
        &&& self.n <= i32::MAX
        &&& self.arow.len() == self.n
        &&& self.acol.len() == self.n * self.stride
        &&& self.aelt.len() == self.n * self.stride
        &&& forall|i: int| 0 <= i < self.n ==> #[trigger] self.arow[i] <= self.stride
        &&& forall|i: int, k: int|
            0 <= i < self.n && 0 <= k < self.arow[i] ==> 0 <= #[trigger] self.col(i, k) < self.n
    }

    /// Row `i` holds column `c` in one of its first `m` slots.
    pub open spec fn occurs(&self, i: int, m: int, c: int) -> bool {
        exists|k: int| 0 <= k < m && self.col(i, k) == c
    }

    /// Row `i` holds both `r` and `c`.
    pub open spec fn couples(&self, i: int, r: int, c: int) -> bool {
        self.occurs(i, self.arow[i] as int, r) && self.occurs(i, self.arow[i] as int, c)
    }

    /// One of the first `m` rows holds both `r` and `c`: cell `(r, c)` of the
    /// matrix assembled from those rows is present.
    pub open spec fn linked(&self, m: int, r: int, c: int) -> bool {
        exists|i: int| 0 <= i < m && self.couples(i, r, c)
    }

    /// How many of the first `m` slots of row `i` hold `r`.
    pub open spec fn hits(&self, i: int, m: int, r: int) -> int
        decreases m,
    {
        if m <= 0 {
            0
        } else {
            self.hits(i, m - 1, r) + if self.col(i, m - 1) == r {
                1int
            } else {
                0int
            }
        }
    }

    /// The slots that the first `m` staged rows ask for in matrix row `r`:
    /// each slot of a staged row that holds `r` asks for one slot per entry of
    /// that staged row.
    pub open spec fn reserved(&self, m: int, r: int) -> int
        decreases m,
    {
        if m <= 0 {
            0
        } else {
            self.reserved(m - 1, r) + self.hits(m - 1, self.arow[m - 1] as int, r) * self.arow[m - 1]
        }
    }

    /// The slots asked for in all matrix rows before `r`.
    pub open spec fn reserved_below(&self, r: int) -> int
        decreases r,
    {
        if r <= 0 {
            0
        } else {
            self.reserved_below(r - 1) + self.reserved(self.n as int, r - 1)
        }
    }

    /// The slots asked for in the whole matrix.
    pub open spec fn reserved_total(&self) -> int {
        self.reserved_below(self.n as int)
    }

    /// Cell `(r, c)` is present once the scatter has come to entry `b` of slot
    /// `a` of staged row `i`: rows before `i` are done, and so are the slots
    /// before `a` of row `i` and the entries before `b` of slot `a`.
    pub open spec fn seen(&self, r: int, c: int, i: int, a: int, b: int) -> bool {
        ||| self.linked(i, r, c)
        ||| (self.occurs(i, a, r) && self.occurs(i, self.arow[i] as int, c))
        ||| (self.col(i, a) == r && self.occurs(i, b, c))
    }

    /// How many entries have landed in matrix row `r` once the scatter has
    /// come to entry `b` of slot `a` of staged row `i`.
    pub open spec fn progress(&self, r: int, i: int, a: int, b: int) -> int {
        self.reserved(i, r) + self.hits(i, a, r) * self.arow[i] + if self.col(i, a) == r {
            b
        } else {
            0
        }
    }

    /// Looking at one more slot adds exactly that slot's column.
    pub proof fn lemma_occurs_step(&self, i: int, m: int, c: int)
        requires
            0 <= m,
        ensures
            self.occurs(i, m + 1, c) <==> (self.occurs(i, m, c) || self.col(i, m) == c),
    {
        if self.occurs(i, m + 1, c) {
            let k = choose|k: int| 0 <= k < m + 1 && self.col(i, k) == c;
            if k < m {
                assert(self.occurs(i, m, c));
            }
        }
        if self.occurs(i, m, c) {
            let k = choose|k: int| 0 <= k < m && self.col(i, k) == c;
            assert(0 <= k < m + 1 && self.col(i, k) == c);
        }
        if self.col(i, m) == c {
            assert(0 <= m < m + 1 && self.col(i, m) == c);
        }
    }

    /// Looking at one more staged row adds exactly the cells that row couples.
    pub proof fn lemma_linked_step(&self, m: int, r: int, c: int)
        requires
            0 <= m,
        ensures
            self.linked(m + 1, r, c) <==> (self.linked(m, r, c) || self.couples(m, r, c)),
    {
        if self.linked(m + 1, r, c) {
            let i = choose|i: int| 0 <= i < m + 1 && self.couples(i, r, c);
            if i < m {
                assert(self.linked(m, r, c));
            }
        }
        if self.linked(m, r, c) {
            let i = choose|i: int| 0 <= i < m && self.couples(i, r, c);
            assert(0 <= i < m + 1 && self.couples(i, r, c));
        }
        if self.couples(m, r, c) {
            assert(0 <= m < m + 1 && self.couples(m, r, c));
        }
    }

    /// While an entry of slot `a` of row `i` is still to come, the matrix row
    /// it lands in has had fewer entries than were set aside for it.
    pub proof fn lemma_progress_bound(&self, i: int, a: int, b: int)
        requires
            self.wf(),
            0 <= i < self.n,
            0 <= a < self.arow[i],
            0 <= b < self.arow[i],
        ensures
            0 <= self.progress(self.col(i, a), i, a, b) < self.reserved(self.n as int, self.col(i, a)),
    {
        let r = self.col(i, a);
        let w = self.arow[i] as int;
        let h = self.hits(i, a, r);
        self.lemma_hits_monotone(i, 0, a, r);
        self.lemma_hits_monotone(i, a + 1, w, r);
        self.lemma_reserved_monotone(0, i, r);
        self.lemma_reserved_monotone(i + 1, self.n as int, r);
        let hw = self.hits(i, w, r);
        assert(self.hits(i, a + 1, r) == h + 1);
        assert((h + 1) * w <= hw * w) by (nonlinear_arith)
            requires
                h + 1 <= hw,
                0 <= w,
        ;
        assert((h + 1) * w == h * w + w) by (nonlinear_arith);
        assert(0 <= h * w) by (nonlinear_arith)
            requires
                0 <= h,
                0 <= w,
        ;
    }

    /// Counts are never negative and never shrink as more slots are looked at.
    pub proof fn lemma_hits_monotone(&self, i: int, m1: int, m2: int, r: int)
        requires
            m1 <= m2,
        ensures
            0 <= self.hits(i, m1, r) <= self.hits(i, m2, r),
        decreases m2,
    {
        if m2 > 0 {
            if m1 < m2 {
                self.lemma_hits_monotone(i, m1, m2 - 1, r);
            } else {
                self.lemma_hits_monotone(i, m1 - 1, m2 - 1, r);
            }
        }
    }

    /// Reservations are never negative and never shrink as more rows are
    /// looked at.
    pub proof fn lemma_reserved_monotone(&self, m1: int, m2: int, r: int)
        requires
            m1 <= m2,
        ensures
            0 <= self.reserved(m1, r) <= self.reserved(m2, r),
        decreases m2,
    {
        if m2 > 0 {
            self.lemma_hits_monotone(m2 - 1, 0, self.arow[m2 - 1] as int, r);
            let h = self.hits(m2 - 1, self.arow[m2 - 1] as int, r);
            let w = self.arow[m2 - 1] as int;
            assert(0 <= h * w) by (nonlinear_arith)
                requires
                    0 <= h,
                    0 <= w,
            ;
            if m1 < m2 {
                self.lemma_reserved_monotone(m1, m2 - 1, r);
            } else {
                self.lemma_reserved_monotone(m1 - 1, m2 - 1, r);
            }
        }
    }

    /// Running totals never shrink.
    pub proof fn lemma_reserved_below_monotone(&self, r1: int, r2: int)
        requires
            r1 <= r2,
        ensures
            0 <= self.reserved_below(r1) <= self.reserved_below(r2),
        decreases r2,
    {
        if r2 > 0 {
            self.lemma_reserved_monotone(0, self.n as int, r2 - 1);
            if r1 < r2 {
                self.lemma_reserved_below_monotone(r1, r2 - 1);
            } else {
                self.lemma_reserved_below_monotone(r1 - 1, r2 - 1);
            }
        }
    }
}

/// One entry of the scatter: what a pair of slots of one staged row adds to
/// the matrix.
#[derive(Clone, Copy, Debug, PartialEq, Eq)]
pub struct Contribution {
    /// Matrix row the entry lands in.
    pub row: usize,
    /// Matrix column the entry lands in.
    pub col: i32,
    /// Value of the slot that names the row, as a numerator over `2^46`.
    pub row_elt: u64,
    /// Value of the slot that names the column, as a numerator over `2^46`.
    pub col_elt: u64,
    /// Whether the entry lands on the diagonal cell of the staged row's own
    /// index, where the shift is applied.
    pub shifted: bool,
}

impl Staging {
    /// Whether the staging is well formed.
    pub fn check(&self) -> (ok: bool)
        ensures
            ok == self.wf(),
    {
        if self.n > i32::MAX as usize || self.arow.len() != self.n {
            return false;
        }
        let total = match self.n.checked_mul(self.stride) {
            Some(t) => t,
            None => {
                return false;
            },
        };
        if self.acol.len() != total || self.aelt.len() != total {
            return false;
        }
        let n = self.n;
        let stride = self.stride;
        let mut i: usize = 0;
        while i < n
            invariant
                i <= n,
                n == self.n,
                n <= i32::MAX,
                stride == self.stride,
                self.arow.len() == n,
                self.acol.len() == n * stride,
                self.aelt.len() == n * stride,
                forall|r: int| 0 <= r < i ==> #[trigger] self.arow[r] <= stride,
                forall|r: int, k: int|
                    0 <= r < i && 0 <= k < self.arow[r] ==> 0 <= #[trigger] self.col(r, k) < n,
            decreases n - i,
        {
            let w: usize = self.arow[i];
            if w > stride {
                return false;
            }
            let mut k: usize = 0;
            while k < w
                invariant
                    i < n,
                    n == self.n,
                    n <= i32::MAX,
                    stride == self.stride,
                    k <= w <= stride,
                    w == self.arow[i as int],
                    self.acol.len() == n * stride,
                    forall|m: int| 0 <= m < k ==> 0 <= #[trigger] self.col(i as int, m) < n,
                decreases w - k,
            {
                proof {
                    lemma_flat_index(i as int, k as int, n as int, stride as int);
                }
                let c: i32 = self.acol[i * stride + k];
                if c < 0 || c as usize >= n {
                    assert(!(0 <= self.col(i as int, k as int) < n));
                    return false;
                }
                k += 1;
            }
            i += 1;
        }
        true
    }

    /// The entry that slots `a` and `b` of staged row `i` scatter into the
    /// matrix.
    pub fn contribution(&self, i: usize, a: usize, b: usize) -> (e: Contribution)
        requires
            self.wf(),
            i < self.n,
            a < self.arow[i as int],
            b < self.arow[i as int],
        ensures
            e.row == self.col(i as int, a as int),
            e.col == self.col(i as int, b as int),
            e.row_elt == self.elt(i as int, a as int),
            e.col_elt == self.elt(i as int, b as int),
            e.shifted == (e.row == i && e.col == i),
            self.linked(self.n as int, e.row as int, e.col as int),
    {
        proof {
            lemma_flat_index(i as int, a as int, self.n as int, self.stride as int);
            lemma_flat_index(i as int, b as int, self.n as int, self.stride as int);
            assert(0 <= self.col(i as int, a as int) < self.n);
            assert(0 <= self.col(i as int, b as int) < self.n);
            assert(self.occurs(i as int, self.arow[i as int] as int, self.col(i as int, a as int)));
            assert(self.occurs(i as int, self.arow[i as int] as int, self.col(i as int, b as int)));
            assert(self.couples(i as int, self.col(i as int, a as int), self.col(i as int, b as int)));
        }
        let base: usize = i * self.stride;
        let j: i32 = self.acol[base + a];
        let jcol: i32 = self.acol[base + b];
        Contribution {
            row: j as usize,
            col: jcol,
            row_elt: self.aelt[base + a],
            col_elt: self.aelt[base + b],
            shifted: jcol == j && j as usize == i,
        }
    }
}

/// Slot `k` of row `i` lies inside a buffer of `n` slabs of `stride` slots.
pub proof fn lemma_flat_index(i: int, k: int, n: int, stride: int)
    by (nonlinear_arith)
    requires
        0 <= i < n,
        0 <= k < stride,
    ensures
        0 <= i * stride + k < n * stride,
{
}
} // verus!
