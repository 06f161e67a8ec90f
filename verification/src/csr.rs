//! The compressed-row pattern of a sparse matrix.
//!
//! A pattern says which cells of the matrix are stored, row by row; the
//! values of the cells live in an array of their own, parallel to the
//! columns.

use vstd::prelude::*;

verus! {

/// The pattern of a sparse matrix in compressed-row form.
pub struct Csr {
    /// Where each row starts in `col_index`; one entry more than rows.
    pub row_ptr: Vec<usize>,
    /// The columns of the stored cells, row after row.
    pub col_index: Vec<i32>,
}

impl Csr {
    /// Number of rows.
    pub open spec fn rows(&self) -> int {
        self.row_ptr.len() - 1
    }

    /// Row pointers start at zero, never decrease and end at the number of
    /// stored cells; every column lies inside the matrix; within a row the
    /// columns strictly ascend.
    pub open spec fn wf(&self) -> bool {
        &&& self.row_ptr.len() >= 1
        &&& self.row_ptr[0] == 0
        &&& forall|j: int, l: int| 0 <= j <= l <= self.rows() ==> self.row_ptr[j] <= self.row_ptr[l]
        &&& self.row_ptr[self.rows()] == self.col_index.len()
        &&& forall|k: int|
            0 <= k < self.col_index.len() ==> 0 <= #[trigger] self.col_index[k] < self.rows()
        &&& forall|j: int| 0 <= j < self.rows() ==> #[trigger] self.row_ascends(j)
    }

    /// The columns stored in row `j` strictly ascend.
    pub open spec fn row_ascends(&self, j: int) -> bool {
        forall|k: int, l: int|
            self.row_ptr[j] <= k < l < self.row_ptr[j + 1] ==> self.col_index[k] < self.col_index[l]
    }

    /// Row `r` stores a cell in column `c`.
    pub open spec fn has(&self, r: int, c: int) -> bool {
        exists|k: int| self.row_ptr[r] <= k < self.row_ptr[r + 1] && self.col_index[k] == c
    }

    /// Where row `r` stores its cell in column `c`, if it stores one.
    pub fn position(&self, r: usize, c: i32) -> (at: Option<usize>)
        requires
            self.wf(),
            r < self.rows(),
        ensures
            at is Some <==> self.has(r as int, c as int),
            at matches Some(k) ==> self.row_ptr[r as int] <= k < self.row_ptr[r + 1]
                && self.col_index[k as int] == c,
    {
        let lo: usize = self.row_ptr[r];
        let hi: usize = self.row_ptr[r + 1];
        assert(self.row_ptr[r as int] <= self.row_ptr[r + 1]);
        assert(self.row_ptr[r + 1] <= self.row_ptr[self.rows()]);
        let mut k: usize = lo;
        while k < hi
            invariant
                lo <= k <= hi <= self.col_index.len(),
                lo == self.row_ptr[r as int],
                hi == self.row_ptr[r + 1],
                forall|m: int| lo <= m < k ==> self.col_index[m] != c,
            decreases hi - k,
        {
            if self.col_index[k] == c {
                return Some(k);
            }
            k += 1;
        }
        None
    }

    /// Number of stored cells.
    pub fn nnz(&self) -> (count: usize)
        ensures
            count == self.col_index.len(),
    {
        self.col_index.len()
    }

    /// Whether the pattern is well formed.
    pub fn check(&self) -> (ok: bool)
        ensures
            ok == self.wf(),
    {
        if self.row_ptr.len() < 1 || self.row_ptr[0] != 0 {
            return false;
        }
        let n: usize = self.row_ptr.len() - 1;
        if self.row_ptr[n] != self.col_index.len() {
            return false;
        }
        let mut j: usize = 0;
        while j < n
            invariant
                j <= n,
                n == self.rows(),
                self.row_ptr[0] == 0,
                self.row_ptr[n as int] == self.col_index.len(),
                forall|r: int, l: int| 0 <= r <= l <= j ==> self.row_ptr[r] <= self.row_ptr[l],
                forall|k: int| 0 <= k < self.row_ptr[j as int] ==> 0 <= #[trigger] self.col_index[k] < n,
                forall|r: int| 0 <= r < j ==> #[trigger] self.row_ascends(r),
                self.row_ptr[j as int] <= self.col_index.len(),
            decreases n - j,
        {
            let lo: usize = self.row_ptr[j];
            let hi: usize = self.row_ptr[j + 1];
            if hi < lo {
                assert(!(self.row_ptr[j as int] <= self.row_ptr[j + 1]));
                return false;
            }
            if hi > self.col_index.len() {
                assert(!(self.row_ptr[j + 1] <= self.row_ptr[n as int]));
                return false;
            }
            let mut k: usize = lo;
            while k < hi
                invariant
                    lo <= k <= hi <= self.col_index.len(),
                    n == self.rows(),
                    j < n,
                    lo == self.row_ptr[j as int],
                    hi == self.row_ptr[j + 1],
                    forall|m: int| lo <= m < k ==> 0 <= #[trigger] self.col_index[m] < n,
                    forall|m: int, l: int| lo <= m < l < k ==> self.col_index[m] < self.col_index[l],
                decreases hi - k,
            {
                let c: i32 = self.col_index[k];
                if c < 0 || c as usize >= n {
                    return false;
                }
                if k > lo && self.col_index[k - 1] >= c {
                    assert(!self.row_ascends(j as int));
                    return false;
                }
                k += 1;
            }
            assert(self.row_ascends(j as int));
            j += 1;
        }
        true
    }
}

/// The entries of `s` strictly ascend.
pub open spec fn ascending(s: Seq<i32>) -> bool {
    forall|k: int, l: int| 0 <= k < l < s.len() ==> s[k] < s[l]
}

/// Two strictly ascending sequences with the same members are equal.
pub proof fn lemma_ascending_unique(s1: Seq<i32>, s2: Seq<i32>)
    requires
        ascending(s1),
        ascending(s2),
        forall|c: i32| s1.contains(c) <==> s2.contains(c),
    ensures
        s1 == s2,
    decreases s1.len(),
{
    if s1.len() == 0 {
        if s2.len() > 0 {
            assert(s2.contains(s2[0]));
        }
        assert(s1 =~= s2);
    } else {
        let a = s1.last();
        assert(s1.contains(a));
        assert(s2.contains(a));
        let b = s2.last();
        assert(s2.contains(b));
        assert(s1.contains(b));
        assert(a == b);
        let t1 = s1.drop_last();
        let t2 = s2.drop_last();
        assert forall|c: i32| t1.contains(c) <==> t2.contains(c) by {
            if t1.contains(c) {
                let k = choose|k: int| 0 <= k < t1.len() && t1[k] == c;
                assert(s1[k] == c);
                assert(s1.contains(c));
                assert(c < a);
                let l = choose|l: int| 0 <= l < s2.len() && s2[l] == c;
                assert(t2[l] == c);
            }
            if t2.contains(c) {
                let k = choose|k: int| 0 <= k < t2.len() && t2[k] == c;
                assert(s2[k] == c);
                assert(s2.contains(c));
                assert(c < b);
                let l = choose|l: int| 0 <= l < s1.len() && s1[l] == c;
                assert(t1[l] == c);
            }
        }
        lemma_ascending_unique(t1, t2);
        assert(s1 =~= t1.push(a));
        assert(s2 =~= t2.push(b));
    }
}

impl Csr {
    /// The columns stored in row `r`, in storage order.
    pub open spec fn row(&self, r: int) -> Seq<i32> {
        self.col_index@.subrange(self.row_ptr[r] as int, self.row_ptr[r + 1] as int)
    }

    /// Every stored cell belongs to some row.
    pub proof fn lemma_find_row(&self, k: int, hi: int)
        requires
            self.wf(),
            0 <= hi <= self.rows(),
            0 <= k < self.row_ptr[hi],
        ensures
            exists|r: int| 0 <= r < hi && self.row_ptr[r] <= k < #[trigger] self.row_ptr[r + 1],
        decreases hi,
    {
        if self.row_ptr[hi - 1] <= k {
            assert(self.row_ptr[hi - 1] <= k < self.row_ptr[(hi - 1) + 1]);
        } else {
            self.lemma_find_row(k, hi - 1);
        }
    }

    /// A row of a well-formed pattern ascends, lies inside the column array,
    /// and holds exactly the columns that the row stores.
    pub proof fn lemma_row(&self, r: int)
        requires
            self.wf(),
            0 <= r < self.rows(),
        ensures
            0 <= self.row_ptr[r] <= self.row_ptr[r + 1] <= self.col_index.len(),
            self.row(r).len() == self.row_ptr[r + 1] - self.row_ptr[r],
            ascending(self.row(r)),
            forall|c: i32| self.row(r).contains(c) <==> self.has(r, c as int),
    {
        assert(self.row_ascends(r));
        let lo = self.row_ptr[r] as int;
        let hi = self.row_ptr[r + 1] as int;
        assert(self.row_ptr[r] <= self.row_ptr[r + 1]);
        assert(self.row_ptr[r + 1] <= self.row_ptr[self.rows()]);
        let s = self.row(r);
        assert forall|c: i32| s.contains(c) <==> self.has(r, c as int) by {
            if s.contains(c) {
                let k = choose|k: int| 0 <= k < s.len() && s[k] == c;
                assert(self.col_index[lo + k] == c);
            }
            if self.has(r, c as int) {
                let k = choose|k: int| lo <= k < hi && self.col_index[k] == c;
                assert(s[k - lo] == c);
            }
        }
    }
}

/// A pattern is determined by the cells it stores: two well-formed patterns
/// with the same rows and the same cells have the same arrays.
pub proof fn lemma_pattern_unique(m1: &Csr, m2: &Csr)
    requires
        m1.wf(),
        m2.wf(),
        m1.rows() == m2.rows(),
        forall|r: int, c: int| 0 <= r < m1.rows() ==> (m1.has(r, c) <==> m2.has(r, c)),
    ensures
        m1.row_ptr@ == m2.row_ptr@,
        m1.col_index@ == m2.col_index@,
{
    let n = m1.rows();
    assert forall|r: int| 0 <= r < n implies #[trigger] m1.row(r) == m2.row(r) by {
        m1.lemma_row(r);
        m2.lemma_row(r);
        assert forall|c: i32| m1.row(r).contains(c) <==> m2.row(r).contains(c) by {
            assert(m1.has(r, c as int) <==> m2.has(r, c as int));
        }
        lemma_ascending_unique(m1.row(r), m2.row(r));
    }
    lemma_same_pointers(m1, m2, n);
    assert(m1.row_ptr@ =~= m2.row_ptr@);
    assert(m1.col_index.len() == m2.col_index.len());
    assert forall|k: int| 0 <= k < m1.col_index.len() implies m1.col_index[k] == m2.col_index[k] by {
        m1.lemma_find_row(k, n);
        let r = choose|r: int| 0 <= r < n && m1.row_ptr[r] <= k < #[trigger] m1.row_ptr[r + 1];
        m1.lemma_row(r);
        m2.lemma_row(r);
        assert(m1.row(r) == m2.row(r));
        assert(m1.row(r)[k - m1.row_ptr[r]] == m1.col_index[k]);
        assert(m2.row(r)[k - m2.row_ptr[r]] == m2.col_index[k]);
    }
    assert(m1.col_index@ =~= m2.col_index@);
}

/// Patterns whose rows agree have the same row pointers.
proof fn lemma_same_pointers(m1: &Csr, m2: &Csr, hi: int)
    requires
        m1.wf(),
        m2.wf(),
        m1.rows() == m2.rows(),
        0 <= hi <= m1.rows(),
        forall|r: int| 0 <= r < m1.rows() ==> #[trigger] m1.row(r) == m2.row(r),
    ensures
        forall|r: int| 0 <= r <= hi ==> m1.row_ptr[r] == m2.row_ptr[r],
    decreases hi,
{
    if hi > 0 {
        lemma_same_pointers(m1, m2, hi - 1);
        m1.lemma_row(hi - 1);
        m2.lemma_row(hi - 1);
        assert(m1.row(hi - 1) == m2.row(hi - 1));
    }
}
} // verus!
