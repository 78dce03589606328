use vstd::prelude::*;
use crate::rational::Frac;
use crate::rational::frac_wf;
use crate::rational::fzero;
use crate::rational::fone;
use crate::rational::feq;
use crate::rational::fadd;
use crate::rational::fsub;
use crate::rational::fmul;
use crate::rational::Rational;

verus! {

/// Well-formedness of a specification-level matrix: `rows` rows, each of
/// length `cols`, every entry a well-formed rational.
pub open spec fn mat_wf(a: Seq<Seq<Frac>>, rows: nat, cols: nat) -> bool {
    &&& a.len() == rows
    &&& forall|i: int| 0 <= i < rows ==> (#[trigger] a[i]).len() == cols
    &&& forall|i: int, j: int|
        0 <= i < rows && 0 <= j < cols ==> frac_wf(#[trigger] a[i][j])
}

/// The dot product of the first `k` entries of row `r` with the first `k`
/// entries of column `j` of `b`.
pub open spec fn dot(r: Seq<Frac>, b: Seq<Seq<Frac>>, j: int, k: nat) -> Frac
    decreases k,
{
    if k == 0 {
        fzero()
    } else {
        fadd(dot(r, b, j, (k - 1) as nat), fmul(r[k - 1], b[k - 1][j]))
    }
}

/// Entry `(i, j)` of the matrix product `a * b`.
pub open spec fn mul_entry(a: Seq<Seq<Frac>>, b: Seq<Seq<Frac>>, i: int, j: int) -> Frac {
    dot(a[i], b, j, b.len())
}

/// The entry of the identity matrix at `(i, j)`.
pub open spec fn ident_entry(i: int, j: int) -> Frac {
    if i == j {
        fone()
    } else {
        fzero()
    }
}

/// `a` has exactly the entries of the `n`-dimensional identity matrix.
pub open spec fn is_identity(a: Seq<Seq<Frac>>, n: nat) -> bool {
    &&& a.len() == n
    &&& forall|i: int| 0 <= i < n ==> (#[trigger] a[i]).len() == n
    &&& forall|i: int, j: int| 0 <= i < n && 0 <= j < n ==> #[trigger] a[i][j] == ident_entry(i, j)
}

/// Every entry of `a` denotes the rational zero.
pub open spec fn is_zero_mat(a: Seq<Seq<Frac>>) -> bool {
    forall|i: int, j: int|
        0 <= i < a.len() && 0 <= j < a[i].len() ==> feq(#[trigger] a[i][j], fzero())
}

/// The matrices have the same shape and denote the same rationals entrywise.
pub open spec fn mat_eq(a: Seq<Seq<Frac>>, b: Seq<Seq<Frac>>) -> bool {
    &&& a.len() == b.len()
    &&& forall|i: int| 0 <= i < a.len() ==> (#[trigger] a[i]).len() == b[i].len()
    &&& forall|i: int, j: int|
        0 <= i < a.len() && 0 <= j < a[i].len() ==> feq(#[trigger] a[i][j], b[i][j])
}

/// `m` is a left inverse of the square matrix `a`: `m * a` denotes the identity.
pub open spec fn left_inverse(m: Seq<Seq<Frac>>, a: Seq<Seq<Frac>>) -> bool {
    &&& mat_wf(m, a.len(), a.len())
    &&& forall|i: int, j: int|
        0 <= i < a.len() && 0 <= j < a.len()
            ==> feq(#[trigger] mul_entry(m, a, i, j), ident_entry(i, j))
}

/// A dense matrix of exact rationals, stored row by row.
pub struct Matrix {
    cols: usize,
    entries: Vec<Vec<Rational>>,
}

impl View for Matrix {
    type V = Seq<Seq<Frac>>;

    closed spec fn view(&self) -> Seq<Seq<Frac>> {
        Seq::new(
            self.entries@.len(),
            |i: int| Seq::new(self.entries@[i]@.len(), |j: int| self.entries@[i]@[j]@),
        )
    }
}

impl Matrix {
    pub open spec fn rows_spec(self) -> nat {
        self@.len()
    }

    pub closed spec fn cols_spec(self) -> nat {
        self.cols as nat
    }

    pub open spec fn wf(self) -> bool {
        mat_wf(self@, self.rows_spec(), self.cols_spec())
    }

    /// How the abstract view indexes into the stored rows.
    proof fn lemma_view(self)
        ensures
            self@.len() == self.entries@.len(),
            forall|i: int|
                #![trigger self.entries@[i]]
                #![trigger self@[i]]
                0 <= i < self.entries@.len() ==> self@[i].len() == self.entries@[i]@.len(),
            forall|i: int, j: int|
                #![trigger self.entries@[i]@[j]]
                #![trigger self@[i][j]]
                0 <= i < self.entries@.len() && 0 <= j < self.entries@[i]@.len()
                    ==> self@[i][j] == self.entries@[i]@[j]@,
    {
    }

    pub fn rows(&self) -> (r: usize)
        ensures
            r == self.rows_spec(),
    {
        self.entries.len()
    }

    pub fn cols(&self) -> (r: usize)
        ensures
            r == self.cols_spec(),
    {
        self.cols
    }

    /// Builds a matrix from rows; rejected exactly when some row does not have
    /// `cols` entries.
    pub fn from_rows(cols: usize, rows: Vec<Vec<Rational>>) -> (r: Option<Matrix>)
        requires
            forall|i: int, j: int|
                0 <= i < rows@.len() && 0 <= j < rows@[i]@.len()
                    ==> (#[trigger] rows@[i]@[j]).wf(),
        ensures
            (r is Some) <==> (forall|i: int|
                0 <= i < rows@.len() ==> (#[trigger] rows@[i])@.len() == cols),
            r matches Some(m) ==> {
                &&& m.wf()
                &&& m.rows_spec() == rows@.len()
                &&& m.cols_spec() == cols as nat
                &&& forall|i: int, j: int|
                    0 <= i < rows@.len() && 0 <= j < cols
                        ==> #[trigger] m@[i][j] == rows@[i]@[j]@
            },
    {
        let n = rows.len();
        let mut i: usize = 0;
        while i < n
            invariant
                n == rows@.len(),
                0 <= i <= n,
                forall|p: int| 0 <= p < i ==> (#[trigger] rows@[p])@.len() == cols,
            decreases n - i,
        {
            if rows[i].len() != cols {
                return None;
            }
            i += 1;
        }
        let m = Matrix { cols, entries: rows };
        proof {
            m.lemma_view();
        }
        Some(m)
    }

    /// A copy denoting the same matrix.
    pub fn dup(&self) -> (r: Matrix)
        requires
            self.wf(),
        ensures
            r.wf(),
            r.rows_spec() == self.rows_spec(),
            r.cols_spec() == self.cols_spec(),
            forall|i: int, j: int|
                0 <= i < self.rows_spec() && 0 <= j < self.cols_spec()
                    ==> #[trigger] r@[i][j] == self@[i][j],
    {
        proof {
            self.lemma_view();
        }
        let n = self.entries.len();
        let mut out: Vec<Vec<Rational>> = Vec::new();
        let mut i: usize = 0;
        while i < n
            invariant
                n == self@.len(),
                self.wf(),
                0 <= i <= n,
                out@.len() == i,
                forall|p: int| 0 <= p < i ==> (#[trigger] out@[p])@.len() == self.cols_spec(),
                forall|p: int, q: int|
                    0 <= p < i && 0 <= q < self.cols_spec()
                        ==> #[trigger] out@[p]@[q]@ == self@[p][q],
            decreases n - i,
        {
            proof {
                self.lemma_view();
            }
            let row = dup_row(&self.entries[i]);
            out.push(row);
            i += 1;
        }
        let m = Matrix { cols: self.cols, entries: out };
        proof {
            m.lemma_view();
        }
        m
    }

    /// The `n`-dimensional identity matrix.
    pub fn identity(n: usize) -> (r: Matrix)
        ensures
            r.wf(),
            r.rows_spec() == n as nat,
            r.cols_spec() == n as nat,
            is_identity(r@, n as nat),
    {
        let mut out: Vec<Vec<Rational>> = Vec::new();
        let mut i: usize = 0;
        while i < n
            invariant
                0 <= i <= n,
                out@.len() == i,
                forall|p: int| 0 <= p < i ==> (#[trigger] out@[p])@.len() == n,
                forall|p: int, q: int|
                    0 <= p < i && 0 <= q < n ==> #[trigger] out@[p]@[q]@ == ident_entry(p, q),
            decreases n - i,
        {
            let mut row: Vec<Rational> = Vec::new();
            let mut j: usize = 0;
            while j < n
                invariant
                    0 <= j <= n,
                    row@.len() == j,
                    forall|q: int| 0 <= q < j ==> #[trigger] row@[q]@ == ident_entry(i as int, q),
                decreases n - j,
            {
                if i == j {
                    row.push(Rational::from_int(1));
                } else {
                    row.push(Rational::from_int(0));
                }
                j += 1;
            }
            out.push(row);
            i += 1;
        }
        let m = Matrix { cols: n, entries: out };
        proof {
            m.lemma_view();
        }
        m
    }

    /// The `rows`-by-`cols` matrix of zeros.
    pub fn zero(rows: usize, cols: usize) -> (r: Matrix)
        ensures
            r.wf(),
            r.rows_spec() == rows as nat,
            r.cols_spec() == cols as nat,
            forall|i: int, j: int|
                0 <= i < rows && 0 <= j < cols ==> #[trigger] r@[i][j] == fzero(),
    {
        let mut out: Vec<Vec<Rational>> = Vec::new();
        let mut i: usize = 0;
        while i < rows
            invariant
                0 <= i <= rows,
                out@.len() == i,
                forall|p: int| 0 <= p < i ==> (#[trigger] out@[p])@.len() == cols,
                forall|p: int, q: int|
                    0 <= p < i && 0 <= q < cols ==> #[trigger] out@[p]@[q]@ == fzero(),
            decreases rows - i,
        {
            let mut row: Vec<Rational> = Vec::new();
            let mut j: usize = 0;
            while j < cols
                invariant
                    0 <= j <= cols,
                    row@.len() == j,
                    forall|q: int| 0 <= q < j ==> #[trigger] row@[q]@ == fzero(),
                decreases cols - j,
            {
                row.push(Rational::from_int(0));
                j += 1;
            }
            out.push(row);
            i += 1;
        }
        let m = Matrix { cols, entries: out };
        proof {
            m.lemma_view();
        }
        m
    }

    /// The entry at row `i`, column `j`.
    pub fn entry(&self, i: usize, j: usize) -> (r: Rational)
        requires
            self.wf(),
            i < self.rows_spec(),
            j < self.cols_spec(),
        ensures
            r@ == self@[i as int][j as int],
            r.wf(),
    {
        proof {
            self.lemma_view();
        }
        self.entries[i][j].dup()
    }

    /// Entrywise sum.
    pub fn add(&self, other: &Matrix) -> (r: Matrix)
        requires
            self.wf(),
            other.wf(),
            self.rows_spec() == other.rows_spec(),
            self.cols_spec() == other.cols_spec(),
        ensures
            r.wf(),
            r.rows_spec() == self.rows_spec(),
            r.cols_spec() == self.cols_spec(),
            forall|i: int, j: int|
                0 <= i < self.rows_spec() && 0 <= j < self.cols_spec()
                    ==> #[trigger] r@[i][j] == fadd(self@[i][j], other@[i][j]),
    {
        proof {
            self.lemma_view();
            other.lemma_view();
        }
        let n = self.entries.len();
        let cols = self.cols;
        let mut out: Vec<Vec<Rational>> = Vec::new();
        let mut i: usize = 0;
        while i < n
            invariant
                n == self@.len(),
                cols == self.cols_spec(),
                self.wf(),
                other.wf(),
                other.rows_spec() == n,
                other.cols_spec() == cols as nat,
                0 <= i <= n,
                out@.len() == i,
                forall|p: int| 0 <= p < i ==> (#[trigger] out@[p])@.len() == cols,
                forall|p: int, q: int|
                    0 <= p < i && 0 <= q < cols
                        ==> #[trigger] out@[p]@[q]@ == fadd(self@[p][q], other@[p][q])
                            && frac_wf(out@[p]@[q]@),
            decreases n - i,
        {
            let mut row: Vec<Rational> = Vec::new();
            let mut j: usize = 0;
            while j < cols
                invariant
                    n == self@.len(),
                    cols == self.cols_spec(),
                    self.wf(),
                    other.wf(),
                    other.rows_spec() == n,
                    other.cols_spec() == cols as nat,
                    0 <= i < n,
                    0 <= j <= cols,
                    row@.len() == j,
                    forall|q: int|
                        0 <= q < j
                            ==> #[trigger] row@[q]@ == fadd(self@[i as int][q], other@[i as int][q])
                                && frac_wf(row@[q]@),
                decreases cols - j,
            {
                proof {
                    self.lemma_view();
                    other.lemma_view();
                }
                row.push(self.entries[i][j].add(&other.entries[i][j]));
                j += 1;
            }
            out.push(row);
            i += 1;
        }
        let m = Matrix { cols, entries: out };
        proof {
            m.lemma_view();
        }
        m
    }

    /// Entrywise difference.
    pub fn sub(&self, other: &Matrix) -> (r: Matrix)
        requires
            self.wf(),
            other.wf(),
            self.rows_spec() == other.rows_spec(),
            self.cols_spec() == other.cols_spec(),
        ensures
            r.wf(),
            r.rows_spec() == self.rows_spec(),
            r.cols_spec() == self.cols_spec(),
            forall|i: int, j: int|
                0 <= i < self.rows_spec() && 0 <= j < self.cols_spec()
                    ==> #[trigger] r@[i][j] == fsub(self@[i][j], other@[i][j]),
    {
        proof {
            self.lemma_view();
            other.lemma_view();
        }
        let n = self.entries.len();
        let cols = self.cols;
        let mut out: Vec<Vec<Rational>> = Vec::new();
        let mut i: usize = 0;
        while i < n
            invariant
                n == self@.len(),
                cols == self.cols_spec(),
                self.wf(),
                other.wf(),
                other.rows_spec() == n,
                other.cols_spec() == cols as nat,
                0 <= i <= n,
                out@.len() == i,
                forall|p: int| 0 <= p < i ==> (#[trigger] out@[p])@.len() == cols,
                forall|p: int, q: int|
                    0 <= p < i && 0 <= q < cols
                        ==> #[trigger] out@[p]@[q]@ == fsub(self@[p][q], other@[p][q])
                            && frac_wf(out@[p]@[q]@),
            decreases n - i,
        {
            let mut row: Vec<Rational> = Vec::new();
            let mut j: usize = 0;
            while j < cols
                invariant
                    n == self@.len(),
                    cols == self.cols_spec(),
                    self.wf(),
                    other.wf(),
                    other.rows_spec() == n,
                    other.cols_spec() == cols as nat,
                    0 <= i < n,
                    0 <= j <= cols,
                    row@.len() == j,
                    forall|q: int|
                        0 <= q < j
                            ==> #[trigger] row@[q]@ == fsub(self@[i as int][q], other@[i as int][q])
                                && frac_wf(row@[q]@),
                decreases cols - j,
            {
                proof {
                    self.lemma_view();
                    other.lemma_view();
                }
                row.push(self.entries[i][j].sub(&other.entries[i][j]));
                j += 1;
            }
            out.push(row);
            i += 1;
        }
        let m = Matrix { cols, entries: out };
        proof {
            m.lemma_view();
        }
        m
    }

    /// Every entry multiplied by the scalar `c`.
    pub fn scale(&self, c: &Rational) -> (r: Matrix)
        requires
            self.wf(),
            c.wf(),
        ensures
            r.wf(),
            r.rows_spec() == self.rows_spec(),
            r.cols_spec() == self.cols_spec(),
            forall|i: int, j: int|
                0 <= i < self.rows_spec() && 0 <= j < self.cols_spec()
                    ==> #[trigger] r@[i][j] == fmul(c@, self@[i][j]),
    {
        proof {
            self.lemma_view();
        }
        let n = self.entries.len();
        let cols = self.cols;
        let mut out: Vec<Vec<Rational>> = Vec::new();
        let mut i: usize = 0;
        while i < n
            invariant
                n == self@.len(),
                cols == self.cols_spec(),
                self.wf(),
                c.wf(),
                0 <= i <= n,
                out@.len() == i,
                forall|p: int| 0 <= p < i ==> (#[trigger] out@[p])@.len() == cols,
                forall|p: int, q: int|
                    0 <= p < i && 0 <= q < cols
                        ==> #[trigger] out@[p]@[q]@ == fmul(c@, self@[p][q])
                            && frac_wf(out@[p]@[q]@),
            decreases n - i,
        {
            let mut row: Vec<Rational> = Vec::new();
            let mut j: usize = 0;
            while j < cols
                invariant
                    n == self@.len(),
                    cols == self.cols_spec(),
                    self.wf(),
                    c.wf(),
                    0 <= i < n,
                    0 <= j <= cols,
                    row@.len() == j,
                    forall|q: int|
                        0 <= q < j
                            ==> #[trigger] row@[q]@ == fmul(c@, self@[i as int][q])
                                && frac_wf(row@[q]@),
                decreases cols - j,
            {
                proof {
                    self.lemma_view();
                }
                row.push(c.mul(&self.entries[i][j]));
                j += 1;
            }
            out.push(row);
            i += 1;
        }
        let m = Matrix { cols, entries: out };
        proof {
            m.lemma_view();
        }
        m
    }

    /// The transpose.
    pub fn transpose(&self) -> (r: Matrix)
        requires
            self.wf(),
        ensures
            r.wf(),
            r.rows_spec() == self.cols_spec(),
            r.cols_spec() == self.rows_spec(),
            forall|i: int, j: int|
                0 <= i < self.cols_spec() && 0 <= j < self.rows_spec()
                    ==> #[trigger] r@[i][j] == self@[j][i],
    {
        proof {
            self.lemma_view();
        }
        let n = self.entries.len();
        let cols = self.cols;
        let mut out: Vec<Vec<Rational>> = Vec::new();
        let mut i: usize = 0;
        while i < cols
            invariant
                n == self@.len(),
                cols == self.cols_spec(),
                self.wf(),
                0 <= i <= cols,
                out@.len() == i,
                forall|p: int| 0 <= p < i ==> (#[trigger] out@[p])@.len() == n,
                forall|p: int, q: int|
                    0 <= p < i && 0 <= q < n ==> #[trigger] out@[p]@[q]@ == self@[q][p],
            decreases cols - i,
        {
            let mut row: Vec<Rational> = Vec::new();
            let mut j: usize = 0;
            while j < n
                invariant
                    n == self@.len(),
                    cols == self.cols_spec(),
                    self.wf(),
                    0 <= i < cols,
                    0 <= j <= n,
                    row@.len() == j,
                    forall|q: int| 0 <= q < j ==> #[trigger] row@[q]@ == self@[q][i as int],
                decreases n - j,
            {
                proof {
                    self.lemma_view();
                }
                row.push(self.entries[j][i].dup());
                j += 1;
            }
            out.push(row);
            i += 1;
        }
        let m = Matrix { cols: n, entries: out };
        proof {
            m.lemma_view();
        }
        m
    }

    /// Matrix product; the column count of `self` must equal the row count of
    /// `other`.
    pub fn mul(&self, other: &Matrix) -> (r: Matrix)
        requires
            self.wf(),
            other.wf(),
            self.cols_spec() == other.rows_spec(),
        ensures
            r.wf(),
            r.rows_spec() == self.rows_spec(),
            r.cols_spec() == other.cols_spec(),
            forall|i: int, j: int|
                0 <= i < self.rows_spec() && 0 <= j < other.cols_spec()
                    ==> #[trigger] r@[i][j] == mul_entry(self@, other@, i, j),
    {
        proof {
            self.lemma_view();
            other.lemma_view();
        }
        let n = self.entries.len();
        let inner = self.cols;
        let cols = other.cols;
        let mut out: Vec<Vec<Rational>> = Vec::new();
        let mut i: usize = 0;
        while i < n
            invariant
                n == self@.len(),
                inner == self.cols_spec(),
                cols == other.cols_spec(),
                self.wf(),
                other.wf(),
                other.rows_spec() == inner as nat,
                0 <= i <= n,
                out@.len() == i,
                forall|p: int| 0 <= p < i ==> (#[trigger] out@[p])@.len() == cols,
                forall|p: int, q: int|
                    0 <= p < i && 0 <= q < cols
                        ==> #[trigger] out@[p]@[q]@ == mul_entry(self@, other@, p, q)
                            && frac_wf(out@[p]@[q]@),
            decreases n - i,
        {
            let mut row: Vec<Rational> = Vec::new();
            let mut j: usize = 0;
            while j < cols
                invariant
                    n == self@.len(),
                    inner == self.cols_spec(),
                    cols == other.cols_spec(),
                    self.wf(),
                    other.wf(),
                    other.rows_spec() == inner as nat,
                    0 <= i < n,
                    0 <= j <= cols,
                    row@.len() == j,
                    forall|q: int|
                        0 <= q < j
                            ==> #[trigger] row@[q]@ == mul_entry(self@, other@, i as int, q)
                                && frac_wf(row@[q]@),
                decreases cols - j,
            {
                let mut acc = Rational::from_int(0);
                let mut k: usize = 0;
                while k < inner
                    invariant
                        n == self@.len(),
                        inner == self.cols_spec(),
                        cols == other.cols_spec(),
                        self.wf(),
                        other.wf(),
                        other.rows_spec() == inner as nat,
                        0 <= i < n,
                        0 <= j < cols,
                        0 <= k <= inner,
                        acc@ == dot(self@[i as int], other@, j as int, k as nat),
                        acc.wf(),
                    decreases inner - k,
                {
                    proof {
                        self.lemma_view();
                        other.lemma_view();
                    }
                    let term = self.entries[i][k].mul(&other.entries[k][j]);
                    acc = acc.add(&term);
                    k += 1;
                }
                proof {
                    assert(other@.len() == inner as nat);
                }
                row.push(acc);
                j += 1;
            }
            out.push(row);
            i += 1;
        }
        let m = Matrix { cols, entries: out };
        proof {
            m.lemma_view();
        }
        m
    }

    /// Whether the two matrices have the same shape and denote the same
    /// rationals entrywise.
    pub fn eq_value(&self, other: &Matrix) -> (r: bool)
        requires
            self.wf(),
            other.wf(),
        ensures
            r == (self.cols_spec() == other.cols_spec() && mat_eq(self@, other@)),
    {
        proof {
            self.lemma_view();
            other.lemma_view();
        }
        if self.entries.len() != other.entries.len() || self.cols != other.cols {
            return false;
        }
        let n = self.entries.len();
        let cols = self.cols;
        let mut i: usize = 0;
        while i < n
            invariant
                n == self@.len(),
                cols == self.cols_spec(),
                self.wf(),
                other.wf(),
                other.rows_spec() == n,
                other.cols_spec() == cols as nat,
                0 <= i <= n,
                forall|p: int, q: int|
                    0 <= p < i && 0 <= q < cols ==> feq(#[trigger] self@[p][q], other@[p][q]),
            decreases n - i,
        {
            let mut j: usize = 0;
            while j < cols
                invariant
                    n == self@.len(),
                    cols == self.cols_spec(),
                    self.wf(),
                    other.wf(),
                    other.rows_spec() == n,
                    other.cols_spec() == cols as nat,
                    0 <= i < n,
                    0 <= j <= cols,
                    forall|q: int|
                        0 <= q < j ==> feq(#[trigger] self@[i as int][q], other@[i as int][q]),
                decreases cols - j,
            {
                proof {
                    self.lemma_view();
                    other.lemma_view();
                }
                if !self.entries[i][j].eq_value(&other.entries[i][j]) {
                    return false;
                }
                j += 1;
            }
            i += 1;
        }
        true
    }
}

/// A copy of a row, entry by entry.
fn dup_row(r: &Vec<Rational>) -> (out: Vec<Rational>)
    requires
        forall|q: int| 0 <= q < r@.len() ==> (#[trigger] r@[q]).wf(),
    ensures
        out@.len() == r@.len(),
        forall|q: int| 0 <= q < r@.len() ==> #[trigger] out@[q]@ == r@[q]@,
{
    let n = r.len();
    let mut out: Vec<Rational> = Vec::new();
    let mut j: usize = 0;
    while j < n
        invariant
            n == r@.len(),
            forall|q: int| 0 <= q < n ==> (#[trigger] r@[q]).wf(),
            0 <= j <= n,
            out@.len() == j,
            forall|q: int| 0 <= q < j ==> #[trigger] out@[q]@ == r@[q]@,
        decreases n - j,
    {
        out.push(r[j].dup());
        j += 1;
    }
    out
}

} // verus!

use crate::rational::lemma_feq_trans;
use crate::rational::lemma_feq_sym;
use crate::rational::lemma_fadd_congruence;
use crate::rational::lemma_fadd_zero;
use crate::rational::lemma_fmul_zero;
use crate::rational::lemma_fmul_one;
use crate::rational::lemma_fmul_distributes;
use crate::rational::lemma_wf_ops;

verus! {

/// The specification-level matrix product, entry by entry.
pub open spec fn smat_mul(a: Seq<Seq<Frac>>, b: Seq<Seq<Frac>>, rows: nat, cols: nat) -> Seq<
    Seq<Frac>,
> {
    Seq::new(rows, |i: int| Seq::new(cols, |j: int| mul_entry(a, b, i, j)))
}

/// The specification-level entrywise sum.
pub open spec fn smat_add(a: Seq<Seq<Frac>>, b: Seq<Seq<Frac>>, rows: nat, cols: nat) -> Seq<
    Seq<Frac>,
> {
    Seq::new(rows, |i: int| Seq::new(cols, |j: int| fadd(a[i][j], b[i][j])))
}

/// The specification-level entrywise difference.
pub open spec fn smat_sub(a: Seq<Seq<Frac>>, b: Seq<Seq<Frac>>, rows: nat, cols: nat) -> Seq<
    Seq<Frac>,
> {
    Seq::new(rows, |i: int| Seq::new(cols, |j: int| fsub(a[i][j], b[i][j])))
}

/// The specification-level transpose of a `rows`-by-`cols` matrix.
pub open spec fn smat_transpose(a: Seq<Seq<Frac>>, rows: nat, cols: nat) -> Seq<Seq<Frac>> {
    Seq::new(cols, |i: int| Seq::new(rows, |j: int| a[j][i]))
}

/// The specification-level scalar multiple.
pub open spec fn smat_scale(c: Frac, a: Seq<Seq<Frac>>, rows: nat, cols: nat) -> Seq<Seq<Frac>> {
    Seq::new(rows, |i: int| Seq::new(cols, |j: int| fmul(c, a[i][j])))
}

/// A partial dot product of well-formed entries is well formed.
pub proof fn lemma_dot_wf(r: Seq<Frac>, b: Seq<Seq<Frac>>, j: int, k: nat)
    requires
        k <= r.len(),
        k <= b.len(),
        forall|t: int| 0 <= t < k ==> frac_wf(#[trigger] r[t]),
        0 <= j,
        forall|t: int| 0 <= t < k ==> j < (#[trigger] b[t]).len(),
        forall|t: int| 0 <= t < k ==> frac_wf(#[trigger] b[t][j]),
    ensures
        frac_wf(dot(r, b, j, k)),
    decreases k,
{
    if k > 0 {
        lemma_dot_wf(r, b, j, (k - 1) as nat);
        lemma_wf_ops(r[k - 1], b[k - 1][j]);
        lemma_wf_ops(dot(r, b, j, (k - 1) as nat), fmul(r[k - 1], b[k - 1][j]));
    }
}

/// A dot product against a column of zero-valued entries denotes zero.
pub proof fn lemma_dot_zero_col(r: Seq<Frac>, b: Seq<Seq<Frac>>, j: int, k: nat)
    requires
        k <= r.len(),
        k <= b.len(),
        forall|t: int| 0 <= t < k ==> frac_wf(#[trigger] r[t]),
        0 <= j,
        forall|t: int| 0 <= t < k ==> j < (#[trigger] b[t]).len(),
        forall|t: int| 0 <= t < k ==> frac_wf(#[trigger] b[t][j]),
        forall|t: int| 0 <= t < k ==> feq((#[trigger] b[t])[j], fzero()),
    ensures
        feq(dot(r, b, j, k), fzero()),
    decreases k,
{
    if k > 0 {
        let prev = dot(r, b, j, (k - 1) as nat);
        let term = fmul(r[k - 1], b[k - 1][j]);
        lemma_dot_zero_col(r, b, j, (k - 1) as nat);
        lemma_dot_wf(r, b, j, (k - 1) as nat);
        lemma_fmul_zero(r[k - 1], b[k - 1][j]);
        lemma_wf_ops(r[k - 1], b[k - 1][j]);
        lemma_fadd_zero(prev, term);
        lemma_wf_ops(prev, term);
        lemma_feq_trans(fadd(prev, term), prev, fzero());
    }
}

/// A dot product against a row of exact identity entries picks one entry of
/// the other factor: for `i0 < k` it denotes `b[i0][j]`, otherwise zero.
pub proof fn lemma_dot_basis_row(r: Seq<Frac>, b: Seq<Seq<Frac>>, i0: int, j: int, k: nat)
    requires
        k <= r.len(),
        k <= b.len(),
        0 <= i0,
        forall|t: int| 0 <= t < k ==> #[trigger] r[t] == ident_entry(i0, t),
        0 <= j,
        forall|t: int| 0 <= t < k ==> j < (#[trigger] b[t]).len(),
        forall|t: int| 0 <= t < k ==> frac_wf(#[trigger] b[t][j]),
    ensures
        i0 < k ==> feq(dot(r, b, j, k), b[i0][j]),
        i0 >= k ==> feq(dot(r, b, j, k), fzero()),
    decreases k,
{
    if k > 0 {
        let prev = dot(r, b, j, (k - 1) as nat);
        let term = fmul(r[k - 1], b[k - 1][j]);
        lemma_dot_basis_row(r, b, i0, j, (k - 1) as nat);
        lemma_dot_wf(r, b, j, (k - 1) as nat);
        lemma_wf_ops(r[k - 1], b[k - 1][j]);
        lemma_wf_ops(prev, term);
        if k - 1 == i0 {
            lemma_fmul_one(b[k - 1][j], r[k - 1]);
            lemma_fadd_zero(term, prev);
            lemma_feq_trans(fadd(prev, term), term, b[i0][j]);
        } else {
            lemma_fmul_zero(b[k - 1][j], r[k - 1]);
            lemma_fadd_zero(prev, term);
            if i0 < k - 1 {
                lemma_feq_trans(fadd(prev, term), prev, b[i0][j]);
            } else {
                lemma_feq_trans(fadd(prev, term), prev, fzero());
            }
        }
    }
}

/// A dot product against a column of exact identity entries picks one entry of
/// the row: for `t0 < k` it denotes `r[t0]`, otherwise zero.
pub proof fn lemma_dot_basis_col(r: Seq<Frac>, b: Seq<Seq<Frac>>, t0: int, j: int, k: nat)
    requires
        k <= r.len(),
        k <= b.len(),
        0 <= t0,
        0 <= j,
        forall|t: int| 0 <= t < k ==> frac_wf(#[trigger] r[t]),
        forall|t: int| 0 <= t < k ==> j < (#[trigger] b[t]).len(),
        forall|t: int| 0 <= t < k ==> (#[trigger] b[t])[j] == ident_entry(t, t0),
    ensures
        t0 < k ==> feq(dot(r, b, j, k), r[t0]),
        t0 >= k ==> feq(dot(r, b, j, k), fzero()),
    decreases k,
{
    if k > 0 {
        let prev = dot(r, b, j, (k - 1) as nat);
        let term = fmul(r[k - 1], b[k - 1][j]);
        lemma_dot_basis_col(r, b, t0, j, (k - 1) as nat);
        assert(frac_wf(b[k - 1][j]));
        lemma_dot_wf(r, b, j, (k - 1) as nat);
        lemma_wf_ops(r[k - 1], b[k - 1][j]);
        lemma_wf_ops(prev, term);
        if k - 1 == t0 {
            lemma_fmul_one(r[k - 1], b[k - 1][j]);
            lemma_fadd_zero(term, prev);
            lemma_feq_trans(fadd(prev, term), term, r[t0]);
        } else {
            lemma_fmul_zero(r[k - 1], b[k - 1][j]);
            lemma_fadd_zero(prev, term);
            if t0 < k - 1 {
                lemma_feq_trans(fadd(prev, term), prev, r[t0]);
            } else {
                lemma_feq_trans(fadd(prev, term), prev, fzero());
            }
        }
    }
}

/// Swapping two leading factors of a triple product keeps the denoted rational.
proof fn lemma_fmul_swap(a: Frac, b: Frac, c: Frac)
    by (nonlinear_arith)
    requires
        frac_wf(a),
        frac_wf(b),
        frac_wf(c),
    ensures
        feq(fmul(a, fmul(b, c)), fmul(b, fmul(a, c))),
{
}

/// Scaling a column scales the dot product against it.
pub proof fn lemma_dot_scale_col(
    r: Seq<Frac>,
    b2: Seq<Seq<Frac>>,
    c: Frac,
    b: Seq<Seq<Frac>>,
    j: int,
    k: nat,
)
    requires
        k <= r.len(),
        k <= b.len(),
        k <= b2.len(),
        frac_wf(c),
        forall|t: int| 0 <= t < k ==> frac_wf(#[trigger] r[t]),
        0 <= j,
        forall|t: int| 0 <= t < k ==> j < (#[trigger] b[t]).len(),
        forall|t: int| 0 <= t < k ==> frac_wf(#[trigger] b[t][j]),
        forall|t: int| 0 <= t < k ==> j < (#[trigger] b2[t]).len(),
        forall|t: int| 0 <= t < k ==> (#[trigger] b2[t])[j] == fmul(c, b[t][j]),
    ensures
        feq(dot(r, b2, j, k), fmul(c, dot(r, b, j, k))),
    decreases k,
{
    if k == 0 {
        lemma_fmul_zero(c, fzero());
        lemma_feq_sym(fmul(c, fzero()), fzero());
    } else {
        assert forall|t: int| 0 <= t < k implies frac_wf(#[trigger] b2[t][j]) by {
            lemma_wf_ops(c, b[t][j]);
        }
        let prev2 = dot(r, b2, j, (k - 1) as nat);
        let prev = dot(r, b, j, (k - 1) as nat);
        let x = b[k - 1][j];
        let term = fmul(r[k - 1], x);
        let term2 = fmul(r[k - 1], fmul(c, x));
        lemma_dot_scale_col(r, b2, c, b, j, (k - 1) as nat);
        lemma_dot_wf(r, b, j, (k - 1) as nat);
        lemma_wf_ops(r[k - 1], x);
        lemma_wf_ops(c, x);
        lemma_wf_ops(r[k - 1], fmul(c, x));
        lemma_wf_ops(c, prev);
        lemma_wf_ops(c, term);
        lemma_wf_ops(prev, term);
        lemma_wf_ops(fmul(c, prev), fmul(c, term));
        // the new term denotes c times the old term
        lemma_fmul_swap(r[k - 1], c, x);
        // congruence on the sum
        lemma_dot_wf(r, b2, j, (k - 1) as nat);
        lemma_wf_ops(prev2, term2);
        lemma_fadd_congruence(prev2, fmul(c, prev), term2, fmul(c, term));
        // distribute c over the old sum
        lemma_fmul_distributes(c, prev, term);
        lemma_feq_sym(fmul(c, fadd(prev, term)), fadd(fmul(c, prev), fmul(c, term)));
        lemma_wf_ops(c, fadd(prev, term));
        lemma_feq_trans(
            fadd(prev2, term2),
            fadd(fmul(c, prev), fmul(c, term)),
            fmul(c, fadd(prev, term)),
        );
    }
}

} // verus!

verus! {

/// Well-formedness of a square working grid of rows.
spec fn grid_wf(g: Seq<Vec<Rational>>, n: nat) -> bool {
    &&& g.len() == n
    &&& forall|i: int| 0 <= i < n ==> (#[trigger] g[i])@.len() == n
    &&& forall|i: int, j: int| 0 <= i < n && 0 <= j < n ==> (#[trigger] g[i]@[j]).wf()
}

/// The entrywise sum of two rows.
fn row_add_rows(u: &Vec<Rational>, v: &Vec<Rational>) -> (out: Vec<Rational>)
    requires
        u@.len() == v@.len(),
        forall|q: int| 0 <= q < u@.len() ==> (#[trigger] u@[q]).wf(),
        forall|q: int| 0 <= q < v@.len() ==> (#[trigger] v@[q]).wf(),
    ensures
        out@.len() == u@.len(),
        forall|q: int| 0 <= q < out@.len() ==> (#[trigger] out@[q]).wf(),
        forall|q: int| 0 <= q < out@.len() ==> #[trigger] out@[q]@ == fadd(u@[q]@, v@[q]@),
{
    let n = u.len();
    let mut out: Vec<Rational> = Vec::new();
    let mut j: usize = 0;
    while j < n
        invariant
            n == u@.len(),
            n == v@.len(),
            forall|q: int| 0 <= q < n ==> (#[trigger] u@[q]).wf(),
            forall|q: int| 0 <= q < n ==> (#[trigger] v@[q]).wf(),
            0 <= j <= n,
            out@.len() == j,
            forall|q: int| 0 <= q < j ==> (#[trigger] out@[q]).wf(),
            forall|q: int| 0 <= q < j ==> #[trigger] out@[q]@ == fadd(u@[q]@, v@[q]@),
        decreases n - j,
    {
        out.push(u[j].add(&v[j]));
        j += 1;
    }
    out
}

/// A row with every entry multiplied by `w`.
fn row_scale_vec(w: &Rational, u: &Vec<Rational>) -> (out: Vec<Rational>)
    requires
        w.wf(),
        forall|q: int| 0 <= q < u@.len() ==> (#[trigger] u@[q]).wf(),
    ensures
        out@.len() == u@.len(),
        forall|q: int| 0 <= q < out@.len() ==> (#[trigger] out@[q]).wf(),
        forall|q: int| 0 <= q < out@.len() ==> #[trigger] out@[q]@ == fmul(w@, u@[q]@),
{
    let n = u.len();
    let mut out: Vec<Rational> = Vec::new();
    let mut j: usize = 0;
    while j < n
        invariant
            n == u@.len(),
            w.wf(),
            forall|q: int| 0 <= q < n ==> (#[trigger] u@[q]).wf(),
            0 <= j <= n,
            out@.len() == j,
            forall|q: int| 0 <= q < j ==> (#[trigger] out@[q]).wf(),
            forall|q: int| 0 <= q < j ==> #[trigger] out@[q]@ == fmul(w@, u@[q]@),
        decreases n - j,
    {
        out.push(w.mul(&u[j]));
        j += 1;
    }
    out
}

/// The row `u - c * v`, entry by entry.
fn row_sub_scaled(u: &Vec<Rational>, c: &Rational, v: &Vec<Rational>) -> (out: Vec<Rational>)
    requires
        u@.len() == v@.len(),
        c.wf(),
        forall|q: int| 0 <= q < u@.len() ==> (#[trigger] u@[q]).wf(),
        forall|q: int| 0 <= q < v@.len() ==> (#[trigger] v@[q]).wf(),
    ensures
        out@.len() == u@.len(),
        forall|q: int| 0 <= q < out@.len() ==> (#[trigger] out@[q]).wf(),
        forall|q: int| 0 <= q < out@.len() ==> #[trigger] out@[q]@ == fsub(u@[q]@, fmul(c@, v@[q]@)),
{
    let n = u.len();
    let mut out: Vec<Rational> = Vec::new();
    let mut j: usize = 0;
    while j < n
        invariant
            n == u@.len(),
            n == v@.len(),
            c.wf(),
            forall|q: int| 0 <= q < n ==> (#[trigger] u@[q]).wf(),
            forall|q: int| 0 <= q < n ==> (#[trigger] v@[q]).wf(),
            0 <= j <= n,
            out@.len() == j,
            forall|q: int| 0 <= q < j ==> (#[trigger] out@[q]).wf(),
            forall|q: int| 0 <= q < j ==> #[trigger] out@[q]@ == fsub(u@[q]@, fmul(c@, v@[q]@)),
        decreases n - j,
    {
        out.push(u[j].sub(&c.mul(&v[j])));
        j += 1;
    }
    out
}

/// The grid with row `i` replaced.
fn replace_row(g: &Vec<Vec<Rational>>, i: usize, row: Vec<Rational>) -> (out: Vec<
    Vec<Rational>,
>)
    requires
        grid_wf(g@, g@.len()),
        i < g@.len(),
        row@.len() == g@.len(),
        forall|q: int| 0 <= q < row@.len() ==> (#[trigger] row@[q]).wf(),
    ensures
        grid_wf(out@, g@.len()),
        forall|p: int, q: int|
            0 <= p < g@.len() && p != i && 0 <= q < g@.len()
                ==> #[trigger] out@[p]@[q]@ == g@[p]@[q]@,
        forall|q: int| 0 <= q < g@.len() ==> #[trigger] out@[i as int]@[q]@ == row@[q]@,
{
    let n = g.len();
    let mut out: Vec<Vec<Rational>> = Vec::new();
    let mut p: usize = 0;
    while p < n
        invariant
            n == g@.len(),
            grid_wf(g@, n as nat),
            i < n,
            row@.len() == n,
            forall|q: int| 0 <= q < n ==> (#[trigger] row@[q]).wf(),
            0 <= p <= n,
            out@.len() == p,
            forall|q: int| 0 <= q < p ==> (#[trigger] out@[q])@.len() == n,
            forall|q: int, t: int|
                0 <= q < p && 0 <= t < n ==> (#[trigger] out@[q]@[t]).wf(),
            forall|q: int, t: int|
                0 <= q < p && q != i && 0 <= t < n
                    ==> #[trigger] out@[q]@[t]@ == g@[q]@[t]@,
            forall|t: int| 0 <= t < n && i < p ==> #[trigger] out@[i as int]@[t]@ == row@[t]@,
        decreases n - p,
    {
        if p == i {
            out.push(dup_row(&row));
        } else {
            out.push(dup_row(&g[p]));
        }
        p += 1;
    }
    out
}

/// Runs Gauss-Jordan elimination on a copy of `a`, mirroring every row
/// operation on what starts as the identity. Throughout, the accumulator
/// times `a` denotes the worked matrix, row operations never enlarge the
/// kernel, and the processed columns hold the identity pattern. On completion
/// the accumulator is a proven left inverse; at a failed pivot the worked
/// column yields a proven nonzero kernel vector of `a`.
fn gauss_jordan(a: &Matrix) -> (r: Result<Matrix, Matrix>)
    requires
        a.wf(),
        a.rows_spec() == a.cols_spec(),
    ensures
        r matches Ok(m) ==> {
            &&& m.wf()
            &&& m.rows_spec() == a.rows_spec()
            &&& m.cols_spec() == a.rows_spec()
            &&& left_inverse(m@, a@)
        },
        r matches Err(v) ==> {
            &&& v.wf()
            &&& v.rows_spec() == a.rows_spec()
            &&& v.cols_spec() == 1
            &&& kernel_vector(v@, a@)
        },
{
    let n = a.rows();
    let ghost nn = n as nat;
    let m0 = a.dup();
    proof {
        m0.lemma_view();
    }
    let mut aw = m0.entries;
    let idm = Matrix::identity(n);
    proof {
        idm.lemma_view();
    }
    let mut bw = idm.entries;
    proof {
        lemma_grid(aw@);
        lemma_grid(bw@);
        assert(grid_wf(aw@, nn));
        assert(grid_wf(bw@, nn));
        assert(grid_mat(aw@) =~~= a@);
        lemma_grid_wf(bw@, nn);
        let bm = grid_mat(bw@);
        assert forall|i: int, j: int| 0 <= i < nn && 0 <= j < nn implies feq(
            #[trigger] dot(bm[i], a@, j, nn),
            grid_mat(aw@)[i][j],
        ) by {
            assert forall|t: int| 0 <= t < nn implies #[trigger] bm[i][t] == ident_entry(i, t) by {
                assert(bm[i][t] == bw@[i]@[t]@);
                assert(bw@[i]@[t]@ == idm@[i][t]);
            }
            lemma_dot_basis_row(bm[i], a@, i, j, nn);
        }
        assert(tracks(grid_mat(bw@), a@, grid_mat(aw@), nn));
        assert(kernel_carries(grid_mat(aw@), a@, nn));
        assert(reduced_cols(grid_mat(aw@), 0, nn));
    }
    let mut col: usize = 0;
    while col < n
        invariant
            nn == n as nat,
            n == a.rows_spec(),
            a.wf(),
            a.rows_spec() == a.cols_spec(),
            0 <= col <= n,
            grid_wf(aw@, nn),
            grid_wf(bw@, nn),
            reduced_cols(grid_mat(aw@), col as int, nn),
            tracks(grid_mat(bw@), a@, grid_mat(aw@), nn),
            kernel_carries(grid_mat(aw@), a@, nn),
        decreases n - col,
    {
        proof {
            lemma_grid(aw@);
            lemma_grid(bw@);
            lemma_grid_wf(aw@, nn);
            lemma_grid_wf(bw@, nn);
        }
        if aw[col][col].is_zero() {
            let mut piv: usize = n;
            let mut rr: usize = col + 1;
            while rr < n
                invariant
                    nn == n as nat,
                    col < n,
                    col + 1 <= rr <= n,
                    grid_wf(aw@, nn),
                    piv == n || (col < piv < n && !feq(
                        grid_mat(aw@)[piv as int][col as int],
                        fzero(),
                    )),
                    piv == n ==> forall|t: int|
                        col < t < rr ==> feq(#[trigger] grid_mat(aw@)[t][col as int], fzero()),
                decreases n - rr,
            {
                proof {
                    lemma_grid(aw@);
                }
                if piv == n && !aw[rr][col].is_zero() {
                    piv = rr;
                }
                rr += 1;
            }
            if piv == n {
                let ghost am = grid_mat(aw@);
                let mut vv: Vec<Vec<Rational>> = Vec::new();
                let mut t: usize = 0;
                while t < n
                    invariant
                        nn == n as nat,
                        col < n,
                        grid_wf(aw@, nn),
                        0 <= t <= n,
                        vv@.len() == t,
                        am == grid_mat(aw@),
                        forall|q: int| 0 <= q < t ==> (#[trigger] vv@[q])@.len() == 1,
                        forall|q: int| 0 <= q < t ==> (#[trigger] vv@[q]@[0]).wf(),
                        forall|q: int|
                            0 <= q < t && q < col ==> #[trigger] vv@[q]@[0]@ == am[q][col as int],
                        t > col ==> vv@[col as int]@[0]@ == fneg_one(),
                        forall|q: int| col < q < t ==> #[trigger] vv@[q]@[0]@ == fzero(),
                    decreases n - t,
                {
                    proof {
                        lemma_grid(aw@);
                    }
                    let mut row: Vec<Rational> = Vec::new();
                    if t < col {
                        row.push(aw[t][col].dup());
                    } else if t == col {
                        row.push(Rational::from_int(-1));
                    } else {
                        row.push(Rational::from_int(0));
                    }
                    vv.push(row);
                    t += 1;
                }
                let vm = Matrix { cols: 1, entries: vv };
                proof {
                    vm.lemma_view();
                    lemma_grid(aw@);
                    lemma_grid_wf(aw@, nn);
                    assert(mat_wf(vm@, nn, 1));
                    assert forall|q: int| 0 <= q < col implies #[trigger] vm@[q][0] == am[q][
                        col as int
                    ] by {
                        assert(vm@[q][0] == vv@[q]@[0]@);
                    }
                    assert(vm@[col as int][0] == fneg_one());
                    assert forall|q: int| col < q < nn implies #[trigger] vm@[q][0]
                        == fzero() by {
                        assert(vm@[q][0] == vv@[q]@[0]@);
                    }
                    assert forall|r2: int| col <= r2 < nn implies feq(
                        #[trigger] am[r2][col as int],
                        fzero(),
                    ) by {
                    }
                    assert forall|i: int| 0 <= i < nn implies feq(
                        #[trigger] dot(am[i], vm@, 0, nn),
                        fzero(),
                    ) by {
                        lemma_dot_kernel(am, vm@, i, col as int, nn, nn);
                    }
                    assert(is_kernel_of(am, vm@, nn));
                    assert(is_kernel_of(a@, vm@, nn));
                    assert forall|i: int| 0 <= i < nn implies feq(
                        #[trigger] mul_entry(a@, vm@, i, 0),
                        fzero(),
                    ) by {
                        assert(mul_entry(a@, vm@, i, 0) == dot(a@[i], vm@, 0, nn));
                    }
                    assert(!feq(vm@[col as int][0], fzero()));
                    assert(kernel_vector(vm@, a@));
                }
                return Err(vm);
            }
            let ghost amo = grid_mat(aw@);
            let ghost bmo = grid_mat(bw@);
            let na = row_add_rows(&aw[col], &aw[piv]);
            let nb = row_add_rows(&bw[col], &bw[piv]);
            aw = replace_row(&aw, col, na);
            bw = replace_row(&bw, col, nb);
            proof {
                lemma_grid(aw@);
                lemma_grid(bw@);
                lemma_grid_wf(aw@, nn);
                lemma_grid_wf(bw@, nn);
                assert forall|i: int| 0 <= i < nn && i != col implies #[trigger] grid_mat(aw@)[i]
                    == amo[i] by {
                    assert(grid_mat(aw@)[i] =~= amo[i]);
                }
                assert forall|i: int| 0 <= i < nn && i != col implies #[trigger] grid_mat(bw@)[i]
                    == bmo[i] by {
                    assert(grid_mat(bw@)[i] =~= bmo[i]);
                }
                assert forall|q: int| 0 <= q < nn implies #[trigger] grid_mat(aw@)[col as int][q]
                    == fadd(amo[col as int][q], amo[piv as int][q]) by {
                }
                assert forall|q: int| 0 <= q < nn implies #[trigger] grid_mat(bw@)[col as int][q]
                    == fadd(bmo[col as int][q], bmo[piv as int][q]) by {
                }
                lemma_site_add(amo, grid_mat(aw@), bmo, grid_mat(bw@), a@, col as int,
                    piv as int, nn);
                // columns before col keep the identity pattern
                assert forall|i: int, j: int| 0 <= i < nn && 0 <= j < col implies feq(
                    #[trigger] grid_mat(aw@)[i][j],
                    ident_entry(i, j),
                ) by {
                    if i == col {
                        lemma_fadd_zero(amo[col as int][j], amo[piv as int][j]);
                        lemma_wf_ops(amo[col as int][j], amo[piv as int][j]);
                        lemma_feq_trans(
                            fadd(amo[col as int][j], amo[piv as int][j]),
                            amo[col as int][j],
                            fzero(),
                        );
                    }
                }
                // the pivot entry now denotes the nonzero value that was added in
                lemma_fadd_zero(amo[piv as int][col as int], amo[col as int][col as int]);
                assert(feq(
                    fadd(amo[col as int][col as int], amo[piv as int][col as int]),
                    fadd(amo[piv as int][col as int], amo[col as int][col as int]),
                )) by {
                    lemma_fadd_comm(amo[col as int][col as int], amo[piv as int][col as int]);
                }
                lemma_wf_ops(amo[col as int][col as int], amo[piv as int][col as int]);
                lemma_wf_ops(amo[piv as int][col as int], amo[col as int][col as int]);
                lemma_feq_trans(
                    fadd(amo[col as int][col as int], amo[piv as int][col as int]),
                    fadd(amo[piv as int][col as int], amo[col as int][col as int]),
                    amo[piv as int][col as int],
                );
                if feq(grid_mat(aw@)[col as int][col as int], fzero()) {
                    lemma_feq_sym(
                        fadd(amo[col as int][col as int], amo[piv as int][col as int]),
                        amo[piv as int][col as int],
                    );
                    lemma_feq_sym(
                        amo[piv as int][col as int],
                        fadd(amo[col as int][col as int], amo[piv as int][col as int]),
                    );
                    lemma_feq_trans(
                        amo[piv as int][col as int],
                        fadd(amo[col as int][col as int], amo[piv as int][col as int]),
                        fzero(),
                    );
                }
                assert(!feq(grid_mat(aw@)[col as int][col as int], fzero()));
            }
        }
        proof {
            lemma_grid(aw@);
            assert(!feq(grid_mat(aw@)[col as int][col as int], fzero()));
            assert(aw@[col as int]@[col as int]@ == grid_mat(aw@)[col as int][col as int]);
        }
        let w = match aw[col][col].recip() {
            Some(w) => w,
            None => {
                proof {
                    assert(false);
                }
                return Err(Matrix::zero(n, 1));
            },
        };
        let ghost pv = grid_mat(aw@)[col as int][col as int];
        proof {
            assert(w@ == crate::rational::finv(pv));
            assert(pv.n != 0) by {
                assert(!feq(pv, fzero()));
            }
        }
        let ghost amo = grid_mat(aw@);
        let ghost bmo = grid_mat(bw@);
        let sa = row_scale_vec(&w, &aw[col]);
        let sb = row_scale_vec(&w, &bw[col]);
        aw = replace_row(&aw, col, sa);
        bw = replace_row(&bw, col, sb);
        proof {
            lemma_grid(aw@);
            lemma_grid(bw@);
            lemma_grid_wf(aw@, nn);
            lemma_grid_wf(bw@, nn);
            assert forall|i: int| 0 <= i < nn && i != col implies #[trigger] grid_mat(aw@)[i]
                == amo[i] by {
                assert(grid_mat(aw@)[i] =~= amo[i]);
            }
            assert forall|i: int| 0 <= i < nn && i != col implies #[trigger] grid_mat(bw@)[i]
                == bmo[i] by {
                assert(grid_mat(bw@)[i] =~= bmo[i]);
            }
            assert forall|q: int| 0 <= q < nn implies #[trigger] grid_mat(aw@)[col as int][q]
                == fmul(w@, amo[col as int][q]) by {
            }
            assert forall|q: int| 0 <= q < nn implies #[trigger] grid_mat(bw@)[col as int][q]
                == fmul(w@, bmo[col as int][q]) by {
            }
            lemma_site_scale(amo, grid_mat(aw@), bmo, grid_mat(bw@), a@, w@, col as int, nn);
            assert forall|i: int, j: int| 0 <= i < nn && 0 <= j < col implies feq(
                #[trigger] grid_mat(aw@)[i][j],
                ident_entry(i, j),
            ) by {
                if i == col {
                    lemma_fmul_zero(w@, amo[col as int][j]);
                }
            }
            // the pivot now denotes one
            crate::rational::lemma_finv_cancels(pv);
            assert(feq(grid_mat(aw@)[col as int][col as int], fone()));
        }
        let mut r2: usize = 0;
        while r2 < n
            invariant
                nn == n as nat,
                n == a.rows_spec(),
                a.wf(),
                a.rows_spec() == a.cols_spec(),
                col < n,
                0 <= r2 <= n,
                grid_wf(aw@, nn),
                grid_wf(bw@, nn),
                reduced_cols(grid_mat(aw@), col as int, nn),
                tracks(grid_mat(bw@), a@, grid_mat(aw@), nn),
                kernel_carries(grid_mat(aw@), a@, nn),
                feq(grid_mat(aw@)[col as int][col as int], fone()),
                forall|t: int|
                    0 <= t < r2 && t != col ==> feq(
                        #[trigger] grid_mat(aw@)[t][col as int],
                        fzero(),
                    ),
            decreases n - r2,
        {
            if r2 != col {
                proof {
                    lemma_grid(aw@);
                    lemma_grid(bw@);
                    lemma_grid_wf(aw@, nn);
                    lemma_grid_wf(bw@, nn);
                }
                let cf = aw[r2][col].dup();
                let ghost amo = grid_mat(aw@);
                let ghost bmo = grid_mat(bw@);
                let na = row_sub_scaled(&aw[r2], &cf, &aw[col]);
                let nb = row_sub_scaled(&bw[r2], &cf, &bw[col]);
                aw = replace_row(&aw, r2, na);
                bw = replace_row(&bw, r2, nb);
                proof {
                    lemma_grid(aw@);
                    lemma_grid(bw@);
                    lemma_grid_wf(aw@, nn);
                    lemma_grid_wf(bw@, nn);
                    assert forall|i: int| 0 <= i < nn && i != r2 implies #[trigger] grid_mat(
                        aw@,
                    )[i] == amo[i] by {
                        assert(grid_mat(aw@)[i] =~= amo[i]);
                    }
                    assert forall|i: int| 0 <= i < nn && i != r2 implies #[trigger] grid_mat(
                        bw@,
                    )[i] == bmo[i] by {
                        assert(grid_mat(bw@)[i] =~= bmo[i]);
                    }
                    assert forall|q: int| 0 <= q < nn implies #[trigger] grid_mat(aw@)[r2 as int][q]
                        == fsub(amo[r2 as int][q], fmul(cf@, amo[col as int][q])) by {
                    }
                    assert forall|q: int| 0 <= q < nn implies #[trigger] grid_mat(bw@)[r2 as int][q]
                        == fsub(bmo[r2 as int][q], fmul(cf@, bmo[col as int][q])) by {
                    }
                    lemma_site_sub(amo, grid_mat(aw@), bmo, grid_mat(bw@), a@, cf@, r2 as int,
                        col as int, nn);
                    assert forall|i: int, j: int| 0 <= i < nn && 0 <= j < col implies feq(
                        #[trigger] grid_mat(aw@)[i][j],
                        ident_entry(i, j),
                    ) by {
                        if i == r2 {
                            lemma_fmul_zero(cf@, amo[col as int][j]);
                            lemma_wf_ops(cf@, amo[col as int][j]);
                            lemma_fsub_zero(amo[r2 as int][j], fmul(cf@, amo[col as int][j]));
                            lemma_wf_ops(amo[r2 as int][j], fmul(cf@, amo[col as int][j]));
                            lemma_feq_trans(
                                fsub(amo[r2 as int][j], fmul(cf@, amo[col as int][j])),
                                amo[r2 as int][j],
                                ident_entry(i, j),
                            );
                        }
                    }
                    // the cleared entry denotes zero
                    lemma_fmul_one(cf@, amo[col as int][col as int]);
                    lemma_wf_ops(cf@, amo[col as int][col as int]);
                    lemma_feq_sym(fmul(cf@, amo[col as int][col as int]), cf@);
                    lemma_feq_sym(cf@, fmul(cf@, amo[col as int][col as int]));
                    lemma_fsub_self(cf@, fmul(cf@, amo[col as int][col as int]));
                    assert(feq(grid_mat(aw@)[r2 as int][col as int], fzero()));
                }
            }
            r2 += 1;
        }
        proof {
            assert forall|i: int, j: int| 0 <= i < nn && 0 <= j < col as int + 1 implies feq(
                #[trigger] grid_mat(aw@)[i][j],
                ident_entry(i, j),
            ) by {
            }
            assert(reduced_cols(grid_mat(aw@), col as int + 1, nn));
        }
        col += 1;
    }
    let m = Matrix { cols: n, entries: bw };
    proof {
        m.lemma_view();
        lemma_grid(m.entries@);
        assert(m@ =~~= grid_mat(m.entries@));
        assert forall|i: int, j: int| 0 <= i < nn && 0 <= j < nn implies feq(
            #[trigger] mul_entry(m@, a@, i, j),
            ident_entry(i, j),
        ) by {
            assert(mul_entry(m@, a@, i, j) == dot(m@[i], a@, j, nn));
            assert(m@[i] == grid_mat(m.entries@)[i]);
            assert(feq(dot(grid_mat(m.entries@)[i], a@, j, nn), grid_mat(aw@)[i][j]));
            lemma_grid(aw@);
            lemma_grid_wf(aw@, nn);
            lemma_dot_wf(grid_mat(m.entries@)[i], a@, j, nn);
            lemma_feq_trans(
                dot(grid_mat(m.entries@)[i], a@, j, nn),
                grid_mat(aw@)[i][j],
                ident_entry(i, j),
            );
        }
        assert(left_inverse(m@, a@));
    }
    Ok(m)
}

/// The inverse of a square matrix. `Some(m)` carries a proof that `m * a`
/// denotes the identity; `None` carries a proven nonzero kernel vector, so it
/// is returned exactly when `a` has no left inverse at all.
pub fn invert(a: &Matrix) -> (r: Option<Matrix>)
    requires
        a.wf(),
        a.rows_spec() == a.cols_spec(),
    ensures
        r matches Some(m) ==> {
            &&& m.wf()
            &&& m.rows_spec() == a.rows_spec()
            &&& m.cols_spec() == a.rows_spec()
            &&& left_inverse(m@, a@)
        },
        r is None ==> exists|v: Seq<Seq<Frac>>| #[trigger] kernel_vector(v, a@),
        r is None ==> forall|m: Seq<Seq<Frac>>| !left_inverse(m, a@),
        (exists|m: Seq<Seq<Frac>>| #[trigger] left_inverse(m, a@)) ==> r is Some,
{
    match gauss_jordan(a) {
        Ok(m) => Some(m),
        Err(v) => {
            proof {
                lemma_kernel_no_left_inverse(a@, v@, a.rows_spec());
            }
            None
        },
    }
}

} // verus!

use crate::rational::fneg_one;
use crate::rational::lemma_fadd_comm;
use crate::rational::lemma_fmul_congruence;
use crate::rational::lemma_fsub_self;
use crate::rational::lemma_fsub_zero;
use crate::rational::lemma_fadd_neg_self;
use crate::rational::lemma_fmul_cancel_zero;
use crate::rational::lemma_fsub_congruence;
use crate::rational::lemma_fmul_add_distributes;
use crate::rational::lemma_fmul_sub_distributes;
use crate::rational::lemma_fadd_regroup;
use crate::rational::lemma_fsub_regroup;

verus! {

/// `v` is a nonzero kernel vector of the square matrix `a`: some entry of `v`
/// denotes a nonzero rational, yet `a * v` denotes the zero vector.
pub open spec fn kernel_vector(v: Seq<Seq<Frac>>, a: Seq<Seq<Frac>>) -> bool {
    &&& mat_wf(v, a.len(), 1)
    &&& exists|t: int| 0 <= t < a.len() && !feq(#[trigger] v[t][0], fzero())
    &&& forall|i: int| 0 <= i < a.len() ==> feq(#[trigger] mul_entry(a, v, i, 0), fzero())
}

/// Rows that denote the same rationals entrywise have dot products denoting
/// the same rational.
pub proof fn lemma_dot_congruence_row(u: Seq<Frac>, u2: Seq<Frac>, b: Seq<Seq<Frac>>, j: int, k: nat)
    requires
        k <= u.len(),
        k <= u2.len(),
        k <= b.len(),
        0 <= j,
        forall|t: int| 0 <= t < k ==> frac_wf(#[trigger] u[t]),
        forall|t: int| 0 <= t < k ==> frac_wf(#[trigger] u2[t]),
        forall|t: int| 0 <= t < k ==> feq(#[trigger] u[t], u2[t]),
        forall|t: int| 0 <= t < k ==> j < (#[trigger] b[t]).len(),
        forall|t: int| 0 <= t < k ==> frac_wf(#[trigger] b[t][j]),
    ensures
        feq(dot(u, b, j, k), dot(u2, b, j, k)),
    decreases k,
{
    if k > 0 {
        let km = (k - 1) as nat;
        lemma_dot_congruence_row(u, u2, b, j, km);
        lemma_dot_wf(u, b, j, km);
        lemma_dot_wf(u2, b, j, km);
        lemma_wf_ops(u[k - 1], b[k - 1][j]);
        lemma_wf_ops(u2[k - 1], b[k - 1][j]);
        lemma_fmul_congruence(u[k - 1], u2[k - 1], b[k - 1][j], b[k - 1][j]);
        lemma_fadd_congruence(
            dot(u, b, j, km),
            dot(u2, b, j, km),
            fmul(u[k - 1], b[k - 1][j]),
            fmul(u2[k - 1], b[k - 1][j]),
        );
    }
}

/// A dot product whose row denotes zero everywhere denotes zero.
pub proof fn lemma_dot_zero_row(u: Seq<Frac>, b: Seq<Seq<Frac>>, j: int, k: nat)
    requires
        k <= u.len(),
        k <= b.len(),
        0 <= j,
        forall|t: int| 0 <= t < k ==> frac_wf(#[trigger] u[t]),
        forall|t: int| 0 <= t < k ==> feq(#[trigger] u[t], fzero()),
        forall|t: int| 0 <= t < k ==> j < (#[trigger] b[t]).len(),
        forall|t: int| 0 <= t < k ==> frac_wf(#[trigger] b[t][j]),
    ensures
        feq(dot(u, b, j, k), fzero()),
    decreases k,
{
    if k > 0 {
        let km = (k - 1) as nat;
        let prev = dot(u, b, j, km);
        let term = fmul(u[k - 1], b[k - 1][j]);
        lemma_dot_zero_row(u, b, j, km);
        lemma_dot_wf(u, b, j, km);
        lemma_wf_ops(u[k - 1], b[k - 1][j]);
        lemma_fmul_zero(b[k - 1][j], u[k - 1]);
        lemma_fadd_zero(prev, term);
        lemma_wf_ops(prev, term);
        lemma_feq_trans(fadd(prev, term), prev, fzero());
    }
}

/// The dot product of an entrywise sum of rows is the sum of the dot products.
pub proof fn lemma_dot_add_row(
    w: Seq<Frac>,
    u: Seq<Frac>,
    v: Seq<Frac>,
    b: Seq<Seq<Frac>>,
    j: int,
    k: nat,
)
    requires
        k <= w.len(),
        k <= u.len(),
        k <= v.len(),
        k <= b.len(),
        0 <= j,
        forall|t: int| 0 <= t < k ==> frac_wf(#[trigger] u[t]),
        forall|t: int| 0 <= t < k ==> frac_wf(#[trigger] v[t]),
        forall|t: int| 0 <= t < k ==> #[trigger] w[t] == fadd(u[t], v[t]),
        forall|t: int| 0 <= t < k ==> j < (#[trigger] b[t]).len(),
        forall|t: int| 0 <= t < k ==> frac_wf(#[trigger] b[t][j]),
    ensures
        feq(dot(w, b, j, k), fadd(dot(u, b, j, k), dot(v, b, j, k))),
    decreases k,
{
    if k == 0 {
        assert(feq(fzero(), fadd(fzero(), fzero())));
    } else {
        let km = (k - 1) as nat;
        let du = dot(u, b, j, km);
        let dv = dot(v, b, j, km);
        let dw = dot(w, b, j, km);
        let x = b[k - 1][j];
        lemma_dot_add_row(w, u, v, b, j, km);
        lemma_dot_wf(u, b, j, km);
        lemma_dot_wf(v, b, j, km);
        assert(forall|t: int| 0 <= t < k ==> frac_wf(#[trigger] w[t])) by {
            assert forall|t: int| 0 <= t < k implies frac_wf(#[trigger] w[t]) by {
                lemma_wf_ops(u[t], v[t]);
            }
        }
        lemma_dot_wf(w, b, j, km);
        lemma_wf_ops(u[k - 1], x);
        lemma_wf_ops(v[k - 1], x);
        lemma_wf_ops(u[k - 1], v[k - 1]);
        lemma_wf_ops(fadd(u[k - 1], v[k - 1]), x);
        lemma_wf_ops(du, dv);
        lemma_wf_ops(fmul(u[k - 1], x), fmul(v[k - 1], x));
        // the last term distributes
        lemma_fmul_add_distributes(x, u[k - 1], v[k - 1]);
        // combine with the induction hypothesis
        lemma_fadd_congruence(
            dw,
            fadd(du, dv),
            fmul(w[k - 1], x),
            fadd(fmul(u[k - 1], x), fmul(v[k - 1], x)),
        );
        lemma_wf_ops(dw, fmul(w[k - 1], x));
        lemma_wf_ops(fadd(du, dv), fadd(fmul(u[k - 1], x), fmul(v[k - 1], x)));
        lemma_fadd_regroup(du, dv, fmul(u[k - 1], x), fmul(v[k - 1], x));
        lemma_wf_ops(du, fmul(u[k - 1], x));
        lemma_wf_ops(dv, fmul(v[k - 1], x));
        lemma_wf_ops(fadd(du, fmul(u[k - 1], x)), fadd(dv, fmul(v[k - 1], x)));
        lemma_feq_trans(
            fadd(dw, fmul(w[k - 1], x)),
            fadd(fadd(du, dv), fadd(fmul(u[k - 1], x), fmul(v[k - 1], x))),
            fadd(fadd(du, fmul(u[k - 1], x)), fadd(dv, fmul(v[k - 1], x))),
        );
    }
}

/// Swapping grouping in a triple product keeps the entries equal.
proof fn lemma_fmul_assoc_exact(a: Frac, b: Frac, c: Frac)
    by (nonlinear_arith)
    ensures
        fmul(fmul(a, b), c) == fmul(a, fmul(b, c)),
{
}

/// The dot product of a scaled row is the scaled dot product.
pub proof fn lemma_dot_scale_row(
    w: Seq<Frac>,
    s: Frac,
    u: Seq<Frac>,
    b: Seq<Seq<Frac>>,
    j: int,
    k: nat,
)
    requires
        k <= w.len(),
        k <= u.len(),
        k <= b.len(),
        0 <= j,
        frac_wf(s),
        forall|t: int| 0 <= t < k ==> frac_wf(#[trigger] u[t]),
        forall|t: int| 0 <= t < k ==> #[trigger] w[t] == fmul(s, u[t]),
        forall|t: int| 0 <= t < k ==> j < (#[trigger] b[t]).len(),
        forall|t: int| 0 <= t < k ==> frac_wf(#[trigger] b[t][j]),
    ensures
        feq(dot(w, b, j, k), fmul(s, dot(u, b, j, k))),
    decreases k,
{
    if k == 0 {
        assert(feq(fzero(), fmul(s, fzero())));
    } else {
        let km = (k - 1) as nat;
        let du = dot(u, b, j, km);
        let dw = dot(w, b, j, km);
        let x = b[k - 1][j];
        lemma_dot_scale_row(w, s, u, b, j, km);
        lemma_dot_wf(u, b, j, km);
        assert(forall|t: int| 0 <= t < k ==> frac_wf(#[trigger] w[t])) by {
            assert forall|t: int| 0 <= t < k implies frac_wf(#[trigger] w[t]) by {
                lemma_wf_ops(s, u[t]);
            }
        }
        lemma_dot_wf(w, b, j, km);
        lemma_wf_ops(u[k - 1], x);
        lemma_wf_ops(s, u[k - 1]);
        lemma_wf_ops(s, du);
        lemma_wf_ops(s, fmul(u[k - 1], x));
        lemma_fmul_assoc_exact(s, u[k - 1], x);
        lemma_fadd_congruence(dw, fmul(s, du), fmul(w[k - 1], x), fmul(s, fmul(u[k - 1], x)));
        lemma_wf_ops(dw, fmul(w[k - 1], x));
        lemma_wf_ops(fmul(s, du), fmul(s, fmul(u[k - 1], x)));
        lemma_fmul_distributes(s, du, fmul(u[k - 1], x));
        lemma_feq_sym(
            fmul(s, fadd(du, fmul(u[k - 1], x))),
            fadd(fmul(s, du), fmul(s, fmul(u[k - 1], x))),
        );
        lemma_wf_ops(du, fmul(u[k - 1], x));
        lemma_wf_ops(s, fadd(du, fmul(u[k - 1], x)));
        lemma_feq_trans(
            fadd(dw, fmul(w[k - 1], x)),
            fadd(fmul(s, du), fmul(s, fmul(u[k - 1], x))),
            fmul(s, fadd(du, fmul(u[k - 1], x))),
        );
    }
}

/// The dot product of a row combination `u - f * p` is the same combination
/// of the two dot products.
pub proof fn lemma_dot_sub_scaled_row(
    w: Seq<Frac>,
    u: Seq<Frac>,
    f: Frac,
    p: Seq<Frac>,
    b: Seq<Seq<Frac>>,
    j: int,
    k: nat,
)
    requires
        k <= w.len(),
        k <= u.len(),
        k <= p.len(),
        k <= b.len(),
        0 <= j,
        frac_wf(f),
        forall|t: int| 0 <= t < k ==> frac_wf(#[trigger] u[t]),
        forall|t: int| 0 <= t < k ==> frac_wf(#[trigger] p[t]),
        forall|t: int| 0 <= t < k ==> #[trigger] w[t] == fsub(u[t], fmul(f, p[t])),
        forall|t: int| 0 <= t < k ==> j < (#[trigger] b[t]).len(),
        forall|t: int| 0 <= t < k ==> frac_wf(#[trigger] b[t][j]),
    ensures
        feq(dot(w, b, j, k), fsub(dot(u, b, j, k), fmul(f, dot(p, b, j, k)))),
    decreases k,
{
    if k == 0 {
        assert(feq(fzero(), fsub(fzero(), fmul(f, fzero()))));
    } else {
        let km = (k - 1) as nat;
        let du = dot(u, b, j, km);
        let dp = dot(p, b, j, km);
        let dw = dot(w, b, j, km);
        let x = b[k - 1][j];
        let ux = fmul(u[k - 1], x);
        let px = fmul(p[k - 1], x);
        lemma_dot_sub_scaled_row(w, u, f, p, b, j, km);
        lemma_dot_wf(u, b, j, km);
        lemma_dot_wf(p, b, j, km);
        assert(forall|t: int| 0 <= t < k ==> frac_wf(#[trigger] w[t])) by {
            assert forall|t: int| 0 <= t < k implies frac_wf(#[trigger] w[t]) by {
                lemma_wf_ops(f, p[t]);
                lemma_wf_ops(u[t], fmul(f, p[t]));
            }
        }
        lemma_dot_wf(w, b, j, km);
        lemma_wf_ops(u[k - 1], x);
        lemma_wf_ops(p[k - 1], x);
        lemma_wf_ops(f, p[k - 1]);
        lemma_wf_ops(u[k - 1], fmul(f, p[k - 1]));
        lemma_wf_ops(fsub(u[k - 1], fmul(f, p[k - 1])), x);
        lemma_wf_ops(f, dp);
        lemma_wf_ops(du, fmul(f, dp));
        lemma_wf_ops(fmul(f, p[k - 1]), x);
        lemma_wf_ops(f, px);
        lemma_wf_ops(ux, fmul(f, px));
        // distribute the last term
        lemma_fmul_sub_distributes(x, u[k - 1], fmul(f, p[k - 1]));
        lemma_fmul_assoc_exact(f, p[k - 1], x);
        // combine with the induction hypothesis
        lemma_fadd_congruence(
            dw,
            fsub(du, fmul(f, dp)),
            fmul(w[k - 1], x),
            fsub(ux, fmul(f, px)),
        );
        lemma_wf_ops(dw, fmul(w[k - 1], x));
        lemma_wf_ops(fsub(du, fmul(f, dp)), fsub(ux, fmul(f, px)));
        lemma_fsub_regroup(du, fmul(f, dp), ux, fmul(f, px));
        lemma_wf_ops(du, ux);
        lemma_wf_ops(fmul(f, dp), fmul(f, px));
        lemma_wf_ops(fadd(du, ux), fadd(fmul(f, dp), fmul(f, px)));
        lemma_feq_trans(
            fadd(dw, fmul(w[k - 1], x)),
            fadd(fsub(du, fmul(f, dp)), fsub(ux, fmul(f, px))),
            fsub(fadd(du, ux), fadd(fmul(f, dp), fmul(f, px))),
        );
        // fold the scaled sum back together
        lemma_fmul_distributes(f, dp, px);
        lemma_feq_sym(fmul(f, fadd(dp, px)), fadd(fmul(f, dp), fmul(f, px)));
        lemma_wf_ops(dp, px);
        lemma_wf_ops(f, fadd(dp, px));
        lemma_fsub_congruence(
            fadd(du, ux),
            fadd(du, ux),
            fadd(fmul(f, dp), fmul(f, px)),
            fmul(f, fadd(dp, px)),
        );
        lemma_wf_ops(fadd(du, ux), fmul(f, fadd(dp, px)));
        lemma_feq_trans(
            fadd(dw, fmul(w[k - 1], x)),
            fsub(fadd(du, ux), fadd(fmul(f, dp), fmul(f, px))),
            fsub(fadd(du, ux), fmul(f, fadd(dp, px))),
        );
    }
}

} // verus!

verus! {

/// Multiplying a row through a matrix and then against a column is the same,
/// up to rational equality, as the row against the matrix-times-column.
pub proof fn lemma_dot_assoc(u: Seq<Frac>, b: Seq<Seq<Frac>>, c: Seq<Seq<Frac>>, k: nat)
    requires
        k <= u.len(),
        k <= b.len(),
        forall|t: int| 0 <= t < k ==> frac_wf(#[trigger] u[t]),
        forall|t: int| 0 <= t < k ==> (#[trigger] b[t]).len() == c.len(),
        forall|t: int, j: int|
            0 <= t < k && 0 <= j < c.len() ==> frac_wf(#[trigger] b[t][j]),
        forall|t: int| 0 <= t < c.len() ==> 0 < (#[trigger] c[t]).len(),
        forall|t: int| 0 <= t < c.len() ==> frac_wf(#[trigger] c[t][0]),
    ensures
        feq(
            dot(Seq::new(c.len(), |j: int| dot(u, b, j, k)), c, 0, c.len()),
            dot(u, smat_mul(b, c, b.len(), 1), 0, k),
        ),
    decreases k,
{
    let ln = c.len();
    let w = Seq::new(ln, |j: int| dot(u, b, j, k));
    let bc = smat_mul(b, c, b.len(), 1);
    if k == 0 {
        assert(forall|j: int| 0 <= j < ln ==> #[trigger] w[j] == fzero());
        assert(forall|j: int| 0 <= j < ln ==> feq(#[trigger] w[j], fzero()));
        lemma_dot_zero_row(w, c, 0, ln);
    } else {
        let km = (k - 1) as nat;
        let w1 = Seq::new(ln, |j: int| dot(u, b, j, km));
        let w2 = Seq::new(ln, |j: int| fmul(u[k - 1], b[k - 1][j]));
        assert forall|j: int| 0 <= j < ln implies #[trigger] w[j] == fadd(w1[j], w2[j]) by {
        }
        assert forall|j: int| 0 <= j < ln implies frac_wf(#[trigger] w1[j]) by {
            lemma_dot_wf(u, b, j, km);
        }
        assert forall|j: int| 0 <= j < ln implies frac_wf(#[trigger] w2[j]) by {
            lemma_wf_ops(u[k - 1], b[k - 1][j]);
        }
        lemma_dot_add_row(w, w1, w2, c, 0, ln);
        lemma_dot_scale_row(w2, u[k - 1], b[k - 1], c, 0, ln);
        lemma_dot_assoc(u, b, c, km);
        let d1 = dot(w1, c, 0, ln);
        let d2 = dot(w2, c, 0, ln);
        let r1 = dot(u, bc, 0, km);
        let bk = dot(b[k - 1], c, 0, ln);
        assert(bc[k - 1][0] == bk);
        lemma_dot_wf(w1, c, 0, ln);
        lemma_dot_wf(w2, c, 0, ln);
        assert forall|t: int| 0 <= t < k implies 0 < (#[trigger] bc[t]).len() && frac_wf(
            bc[t][0],
        ) by {
            lemma_dot_wf(b[t], c, 0, ln);
        }
        lemma_dot_wf(u, bc, 0, km);
        lemma_dot_wf(b[k - 1], c, 0, ln);
        lemma_wf_ops(u[k - 1], bk);
        lemma_fadd_congruence(d1, r1, d2, fmul(u[k - 1], bk));
        lemma_wf_ops(d1, d2);
        lemma_wf_ops(r1, fmul(u[k - 1], bk));
        assert forall|j: int| 0 <= j < ln implies frac_wf(#[trigger] w[j]) by {
            lemma_wf_ops(w1[j], w2[j]);
        }
        lemma_dot_wf(w, c, 0, ln);
        lemma_feq_trans(
            dot(w, c, 0, ln),
            fadd(d1, d2),
            fadd(r1, fmul(u[k - 1], bk)),
        );
    }
}

/// A square matrix with a nonzero kernel vector has no left inverse: any
/// candidate times the matrix sends the kernel vector both to itself and to
/// zero, and the vector is not zero.
pub proof fn lemma_kernel_no_left_inverse(a: Seq<Seq<Frac>>, v: Seq<Seq<Frac>>, n: nat)
    requires
        mat_wf(a, n, n),
        kernel_vector(v, a),
        a.len() == n,
    ensures
        forall|m: Seq<Seq<Frac>>| !left_inverse(m, a),
{
    let t0 = choose|t: int| 0 <= t < a.len() && !feq(#[trigger] v[t][0], fzero());
    assert forall|m: Seq<Seq<Frac>>| !left_inverse(m, a) by {
        if left_inverse(m, a) {
            let av = smat_mul(a, v, a.len(), 1);
            let w = Seq::new(v.len(), |j: int| dot(m[t0], a, j, n));
            lemma_dot_assoc(m[t0], a, v, n);
            assert forall|t: int| 0 <= t < n implies 0 < (#[trigger] av[t]).len() && frac_wf(
                av[t][0],
            ) && feq(av[t][0], fzero()) by {
                lemma_dot_wf(a[t], v, 0, n);
                assert(av[t][0] == mul_entry(a, v, t, 0));
            }
            lemma_dot_zero_col(m[t0], av, 0, n);
            let wb = Seq::new(n, |j: int| ident_entry(t0, j));
            assert forall|j: int| 0 <= j < n implies frac_wf(#[trigger] w[j]) && feq(
                w[j],
                wb[j],
            ) by {
                lemma_dot_wf(m[t0], a, j, n);
                assert(w[j] == mul_entry(m, a, t0, j));
                assert(wb[j] == ident_entry(t0, j));
            }
            assert(forall|j: int| 0 <= j < n ==> frac_wf(#[trigger] wb[j]));
            lemma_dot_congruence_row(w, wb, v, 0, n);
            lemma_dot_basis_row(wb, v, t0, 0, n);
            lemma_dot_wf(w, v, 0, n);
            lemma_dot_wf(wb, v, 0, n);
            lemma_dot_wf(m[t0], av, 0, n);
            lemma_feq_sym(dot(wb, v, 0, n), v[t0][0]);
            lemma_feq_sym(dot(w, v, 0, n), dot(wb, v, 0, n));
            lemma_feq_trans(v[t0][0], dot(wb, v, 0, n), dot(w, v, 0, n));
            lemma_feq_trans(v[t0][0], dot(w, v, 0, n), dot(m[t0], av, 0, n));
            lemma_feq_trans(v[t0][0], dot(m[t0], av, 0, n), fzero());
            assert(false);
        }
    }
}

} // verus!

verus! {

/// The specification-level matrix held by a grid of rows.
pub open spec fn grid_mat(g: Seq<Vec<Rational>>) -> Seq<Seq<Frac>> {
    Seq::new(g.len(), |i: int| Seq::new(g[i]@.len(), |j: int| g[i]@[j]@))
}

/// How `grid_mat` indexes into the grid.
proof fn lemma_grid(g: Seq<Vec<Rational>>)
    ensures
        grid_mat(g).len() == g.len(),
        forall|i: int|
            #![trigger g[i]]
            #![trigger grid_mat(g)[i]]
            0 <= i < g.len() ==> grid_mat(g)[i].len() == g[i]@.len(),
        forall|i: int, j: int|
            #![trigger g[i]@[j]]
            #![trigger grid_mat(g)[i][j]]
            0 <= i < g.len() && 0 <= j < g[i]@.len() ==> grid_mat(g)[i][j] == g[i]@[j]@,
{
}

/// A well-formed square grid holds a well-formed square matrix.
proof fn lemma_grid_wf(g: Seq<Vec<Rational>>, n: nat)
    requires
        grid_wf(g, n),
    ensures
        mat_wf(grid_mat(g), n, n),
{
    lemma_grid(g);
}

/// Columns before `col` hold exactly the identity pattern, up to rational
/// equality.
pub open spec fn reduced_cols(am: Seq<Seq<Frac>>, col: int, n: nat) -> bool {
    forall|i: int, j: int|
        0 <= i < n && 0 <= j < col ==> feq(#[trigger] am[i][j], ident_entry(i, j))
}

/// `v` is sent to zero by every row of `am`.
pub open spec fn is_kernel_of(am: Seq<Seq<Frac>>, v: Seq<Seq<Frac>>, n: nat) -> bool {
    &&& mat_wf(v, n, 1)
    &&& forall|i: int| 0 <= i < n ==> feq(#[trigger] dot(am[i], v, 0, n), fzero())
}

/// Every kernel vector of the worked matrix is a kernel vector of `s`: row
/// operations only combine rows invertibly, so they never enlarge the kernel.
pub open spec fn kernel_carries(am: Seq<Seq<Frac>>, s: Seq<Seq<Frac>>, n: nat) -> bool {
    forall|v: Seq<Seq<Frac>>| #[trigger] is_kernel_of(am, v, n) ==> is_kernel_of(s, v, n)
}

/// Row `i` of the accumulator times `s` denotes entry by entry the worked
/// matrix: the accumulator is the product of the row operations applied so far.
pub open spec fn tracks(bm: Seq<Seq<Frac>>, s: Seq<Seq<Frac>>, am: Seq<Seq<Frac>>, n: nat) -> bool {
    forall|i: int, j: int|
        0 <= i < n && 0 <= j < n ==> feq(#[trigger] dot(bm[i], s, j, n), am[i][j])
}

/// One subtract-a-multiple row operation, applied to the worked matrix and
/// the accumulator alike, keeps `tracks` and `kernel_carries`.
proof fn lemma_site_sub(
    amo: Seq<Seq<Frac>>,
    amn: Seq<Seq<Frac>>,
    bmo: Seq<Seq<Frac>>,
    bmn: Seq<Seq<Frac>>,
    s: Seq<Seq<Frac>>,
    f: Frac,
    c: int,
    p: int,
    n: nat,
)
    requires
        mat_wf(amo, n, n),
        mat_wf(amn, n, n),
        mat_wf(bmo, n, n),
        mat_wf(bmn, n, n),
        mat_wf(s, n, n),
        0 <= c < n,
        0 <= p < n,
        p != c,
        frac_wf(f),
        forall|i: int| 0 <= i < n && i != c ==> #[trigger] amn[i] == amo[i],
        forall|i: int| 0 <= i < n && i != c ==> #[trigger] bmn[i] == bmo[i],
        forall|q: int| 0 <= q < n ==> #[trigger] amn[c][q] == fsub(amo[c][q], fmul(f, amo[p][q])),
        forall|q: int| 0 <= q < n ==> #[trigger] bmn[c][q] == fsub(bmo[c][q], fmul(f, bmo[p][q])),
        tracks(bmo, s, amo, n),
        kernel_carries(amo, s, n),
    ensures
        tracks(bmn, s, amn, n),
        kernel_carries(amn, s, n),
{
    assert forall|i: int, j: int| 0 <= i < n && 0 <= j < n implies feq(
        #[trigger] dot(bmn[i], s, j, n),
        amn[i][j],
    ) by {
        if i == c {
            lemma_dot_sub_scaled_row(bmn[c], bmo[c], f, bmo[p], s, j, n);
            let dc = dot(bmo[c], s, j, n);
            let dp = dot(bmo[p], s, j, n);
            lemma_dot_wf(bmo[c], s, j, n);
            lemma_dot_wf(bmo[p], s, j, n);
            lemma_dot_wf(bmn[c], s, j, n);
            lemma_fmul_congruence(f, f, dp, amo[p][j]);
            lemma_wf_ops(f, dp);
            lemma_wf_ops(f, amo[p][j]);
            lemma_fsub_congruence(dc, amo[c][j], fmul(f, dp), fmul(f, amo[p][j]));
            lemma_wf_ops(dc, fmul(f, dp));
            lemma_wf_ops(amo[c][j], fmul(f, amo[p][j]));
            lemma_feq_trans(
                dot(bmn[c], s, j, n),
                fsub(dc, fmul(f, dp)),
                fsub(amo[c][j], fmul(f, amo[p][j])),
            );
        }
    }
    assert forall|v: Seq<Seq<Frac>>| #[trigger] is_kernel_of(amn, v, n) implies is_kernel_of(
        s,
        v,
        n,
    ) by {
        assert forall|i: int| 0 <= i < n implies feq(#[trigger] dot(amo[i], v, 0, n), fzero()) by {
            if i == c {
                lemma_dot_sub_scaled_row(amn[c], amo[c], f, amo[p], v, 0, n);
                let x = dot(amo[c], v, 0, n);
                let y = dot(amo[p], v, 0, n);
                assert(amo[p] == amn[p]);
                assert(feq(y, fzero()));
                lemma_dot_wf(amo[c], v, 0, n);
                lemma_dot_wf(amo[p], v, 0, n);
                lemma_dot_wf(amn[c], v, 0, n);
                lemma_fmul_zero(f, y);
                lemma_wf_ops(f, y);
                lemma_fsub_zero(x, fmul(f, y));
                lemma_wf_ops(x, fmul(f, y));
                lemma_feq_sym(dot(amn[c], v, 0, n), fsub(x, fmul(f, y)));
                lemma_feq_trans(fsub(x, fmul(f, y)), dot(amn[c], v, 0, n), fzero());
                lemma_feq_sym(fsub(x, fmul(f, y)), x);
                lemma_feq_sym(x, fsub(x, fmul(f, y)));
                lemma_feq_trans(x, fsub(x, fmul(f, y)), fzero());
            } else {
                assert(amn[i] == amo[i]);
                assert(feq(dot(amn[i], v, 0, n), fzero()));
            }
        }
        assert(is_kernel_of(amo, v, n));
    }
}

/// One add-another-row operation keeps `tracks` and `kernel_carries`.
proof fn lemma_site_add(
    amo: Seq<Seq<Frac>>,
    amn: Seq<Seq<Frac>>,
    bmo: Seq<Seq<Frac>>,
    bmn: Seq<Seq<Frac>>,
    s: Seq<Seq<Frac>>,
    c: int,
    p: int,
    n: nat,
)
    requires
        mat_wf(amo, n, n),
        mat_wf(amn, n, n),
        mat_wf(bmo, n, n),
        mat_wf(bmn, n, n),
        mat_wf(s, n, n),
        0 <= c < n,
        0 <= p < n,
        p != c,
        forall|i: int| 0 <= i < n && i != c ==> #[trigger] amn[i] == amo[i],
        forall|i: int| 0 <= i < n && i != c ==> #[trigger] bmn[i] == bmo[i],
        forall|q: int| 0 <= q < n ==> #[trigger] amn[c][q] == fadd(amo[c][q], amo[p][q]),
        forall|q: int| 0 <= q < n ==> #[trigger] bmn[c][q] == fadd(bmo[c][q], bmo[p][q]),
        tracks(bmo, s, amo, n),
        kernel_carries(amo, s, n),
    ensures
        tracks(bmn, s, amn, n),
        kernel_carries(amn, s, n),
{
    assert forall|i: int, j: int| 0 <= i < n && 0 <= j < n implies feq(
        #[trigger] dot(bmn[i], s, j, n),
        amn[i][j],
    ) by {
        if i == c {
            lemma_dot_add_row(bmn[c], bmo[c], bmo[p], s, j, n);
            let dc = dot(bmo[c], s, j, n);
            let dp = dot(bmo[p], s, j, n);
            lemma_dot_wf(bmo[c], s, j, n);
            lemma_dot_wf(bmo[p], s, j, n);
            lemma_dot_wf(bmn[c], s, j, n);
            lemma_fadd_congruence(dc, amo[c][j], dp, amo[p][j]);
            lemma_wf_ops(dc, dp);
            lemma_wf_ops(amo[c][j], amo[p][j]);
            lemma_feq_trans(dot(bmn[c], s, j, n), fadd(dc, dp), fadd(amo[c][j], amo[p][j]));
        }
    }
    assert forall|v: Seq<Seq<Frac>>| #[trigger] is_kernel_of(amn, v, n) implies is_kernel_of(
        s,
        v,
        n,
    ) by {
        assert forall|i: int| 0 <= i < n implies feq(#[trigger] dot(amo[i], v, 0, n), fzero()) by {
            if i == c {
                lemma_dot_add_row(amn[c], amo[c], amo[p], v, 0, n);
                let x = dot(amo[c], v, 0, n);
                let y = dot(amo[p], v, 0, n);
                assert(amo[p] == amn[p]);
                assert(feq(y, fzero()));
                lemma_dot_wf(amo[c], v, 0, n);
                lemma_dot_wf(amo[p], v, 0, n);
                lemma_dot_wf(amn[c], v, 0, n);
                lemma_fadd_zero(x, y);
                lemma_wf_ops(x, y);
                lemma_feq_sym(dot(amn[c], v, 0, n), fadd(x, y));
                lemma_feq_trans(fadd(x, y), dot(amn[c], v, 0, n), fzero());
                lemma_feq_sym(fadd(x, y), x);
                lemma_feq_sym(x, fadd(x, y));
                lemma_feq_trans(x, fadd(x, y), fzero());
            } else {
                assert(amn[i] == amo[i]);
                assert(feq(dot(amn[i], v, 0, n), fzero()));
            }
        }
        assert(is_kernel_of(amo, v, n));
    }
}

/// One scale-a-row operation, with a scalar denoting a nonzero rational,
/// keeps `tracks` and `kernel_carries`.
proof fn lemma_site_scale(
    amo: Seq<Seq<Frac>>,
    amn: Seq<Seq<Frac>>,
    bmo: Seq<Seq<Frac>>,
    bmn: Seq<Seq<Frac>>,
    s: Seq<Seq<Frac>>,
    w: Frac,
    c: int,
    n: nat,
)
    requires
        mat_wf(amo, n, n),
        mat_wf(amn, n, n),
        mat_wf(bmo, n, n),
        mat_wf(bmn, n, n),
        mat_wf(s, n, n),
        0 <= c < n,
        frac_wf(w),
        w.n != 0,
        forall|i: int| 0 <= i < n && i != c ==> #[trigger] amn[i] == amo[i],
        forall|i: int| 0 <= i < n && i != c ==> #[trigger] bmn[i] == bmo[i],
        forall|q: int| 0 <= q < n ==> #[trigger] amn[c][q] == fmul(w, amo[c][q]),
        forall|q: int| 0 <= q < n ==> #[trigger] bmn[c][q] == fmul(w, bmo[c][q]),
        tracks(bmo, s, amo, n),
        kernel_carries(amo, s, n),
    ensures
        tracks(bmn, s, amn, n),
        kernel_carries(amn, s, n),
{
    assert forall|i: int, j: int| 0 <= i < n && 0 <= j < n implies feq(
        #[trigger] dot(bmn[i], s, j, n),
        amn[i][j],
    ) by {
        if i == c {
            lemma_dot_scale_row(bmn[c], w, bmo[c], s, j, n);
            let dc = dot(bmo[c], s, j, n);
            lemma_dot_wf(bmo[c], s, j, n);
            lemma_dot_wf(bmn[c], s, j, n);
            lemma_fmul_congruence(w, w, dc, amo[c][j]);
            lemma_wf_ops(w, dc);
            lemma_wf_ops(w, amo[c][j]);
            lemma_feq_trans(dot(bmn[c], s, j, n), fmul(w, dc), fmul(w, amo[c][j]));
        }
    }
    assert forall|v: Seq<Seq<Frac>>| #[trigger] is_kernel_of(amn, v, n) implies is_kernel_of(
        s,
        v,
        n,
    ) by {
        assert forall|i: int| 0 <= i < n implies feq(#[trigger] dot(amo[i], v, 0, n), fzero()) by {
            if i == c {
                lemma_dot_scale_row(amn[c], w, amo[c], v, 0, n);
                let x = dot(amo[c], v, 0, n);
                lemma_dot_wf(amo[c], v, 0, n);
                lemma_dot_wf(amn[c], v, 0, n);
                lemma_wf_ops(w, x);
                lemma_feq_sym(dot(amn[c], v, 0, n), fmul(w, x));
                lemma_feq_trans(fmul(w, x), dot(amn[c], v, 0, n), fzero());
                lemma_fmul_cancel_zero(w, x);
            } else {
                assert(amn[i] == amo[i]);
                assert(feq(dot(amn[i], v, 0, n), fzero()));
            }
        }
        assert(is_kernel_of(amo, v, n));
    }
}

} // verus!

verus! {

/// At a failed pivot column `c` — columns before `c` reduced to the identity
/// pattern, column `c` zero from row `c` down — the vector holding column `c`
/// above a minus-one at position `c` and zeros below is sent to zero by every
/// row of the matrix.
proof fn lemma_dot_kernel(am: Seq<Seq<Frac>>, v: Seq<Seq<Frac>>, i: int, c: int, n: nat, k: nat)
    requires
        mat_wf(am, n, n),
        mat_wf(v, n, 1),
        0 <= c < n,
        0 <= i < n,
        k <= n,
        reduced_cols(am, c, n),
        forall|r: int| c <= r < n ==> feq(#[trigger] am[r][c], fzero()),
        forall|j: int| 0 <= j < c ==> #[trigger] v[j][0] == am[j][c],
        v[c][0] == fneg_one(),
        forall|t: int| c < t < n ==> #[trigger] v[t][0] == fzero(),
    ensures
        k <= c && i < k ==> feq(dot(am[i], v, 0, k), am[i][c]),
        k <= c && i >= k ==> feq(dot(am[i], v, 0, k), fzero()),
        k > c ==> feq(dot(am[i], v, 0, k), fzero()),
    decreases k,
{
    if k > 0 {
        let km = (k - 1) as nat;
        let u = am[i];
        let d = dot(u, v, 0, km);
        let term = fmul(u[k - 1], v[k - 1][0]);
        lemma_dot_kernel(am, v, i, c, n, km);
        lemma_dot_wf(u, v, 0, km);
        lemma_wf_ops(u[k - 1], v[k - 1][0]);
        lemma_wf_ops(d, term);
        if k - 1 < c {
            // identity region: the term denotes am[i][c] when k-1 == i, else zero
            assert(feq(u[k - 1], ident_entry(i, k - 1)));
            if k - 1 == i {
                assert(v[k - 1][0] == am[i][c]);
                lemma_fmul_congruence(u[k - 1], fone(), v[k - 1][0], am[i][c]);
                lemma_fmul_one(am[i][c], fone());
                lemma_wf_ops(fone(), am[i][c]);
                lemma_feq_trans(term, fmul(fone(), am[i][c]), am[i][c]);
                // d denotes zero since i >= k-1
                lemma_fadd_zero(term, d);
                lemma_feq_trans(fadd(d, term), term, am[i][c]);
            } else {
                lemma_fmul_zero(v[k - 1][0], u[k - 1]);
                lemma_fadd_zero(d, term);
                if i < k - 1 {
                    lemma_feq_trans(fadd(d, term), d, am[i][c]);
                } else {
                    lemma_feq_trans(fadd(d, term), d, fzero());
                }
            }
        } else if k - 1 == c {
            // the minus-one entry cancels what the identity region picked up
            assert(v[k - 1][0] == fneg_one());
            if i < c {
                assert(u[c] == am[i][c]);
                lemma_fadd_congruence(d, am[i][c], term, fmul(am[i][c], fneg_one()));
                lemma_fadd_neg_self(am[i][c]);
                lemma_wf_ops(am[i][c], fmul(am[i][c], fneg_one()));
                lemma_feq_trans(
                    fadd(d, term),
                    fadd(am[i][c], fmul(am[i][c], fneg_one())),
                    fzero(),
                );
            } else {
                // am[i][c] denotes zero in the failed region
                assert(feq(am[i][c], fzero()));
                assert(u[c] == am[i][c]);
                lemma_fmul_zero(fneg_one(), u[k - 1]);
                lemma_fadd_zero(d, term);
                lemma_feq_trans(fadd(d, term), d, fzero());
            }
        } else {
            // zero region of the vector
            assert(v[k - 1][0] == fzero());
            lemma_fmul_zero(u[k - 1], v[k - 1][0]);
            lemma_fadd_zero(d, term);
            lemma_feq_trans(fadd(d, term), d, fzero());
        }
    }
}

} // verus!
