//! Square cost matrices over fixed-point `u64` costs, with `INF` as the
//! sentinel for "no edge", and the row/column reduction that tightens a
//! branch-and-bound lower bound.

use vstd::prelude::*;

verus! {

/// Sentinel for "no edge" / "already used" / "diagonal".
pub const INF: u64 = u64::MAX;

/// Largest accepted matrix dimension.
pub const MAX_DIM: usize = 1024;

/// Largest accepted finite entry (2^42). Together with `MAX_DIM` this keeps
/// every bound the search can compute below `u64::MAX`.
pub const MAX_ENTRY: u64 = 0x400_0000_0000;

/// A cost is finite exactly when it is not the sentinel.
pub open spec fn fin(x: u64) -> bool {
    x != INF
}

/// Every row is as long as the grid is tall.
pub open spec fn grid_square(g: Seq<Seq<u64>>) -> bool {
    forall|i: int| 0 <= i < g.len() ==> (#[trigger] g[i]).len() == g.len()
}

/// The diagonal carries the sentinel (no self-loops).
pub open spec fn grid_diag_inf(g: Seq<Seq<u64>>) -> bool {
    forall|i: int| 0 <= i < g.len() ==> #[trigger] g[i][i] == INF
}

/// Every finite entry fits in `MAX_ENTRY`.
pub open spec fn grid_entries_ok(g: Seq<Seq<u64>>) -> bool {
    forall|i: int, j: int|
        0 <= i < g.len() && 0 <= j < g.len() && fin(#[trigger] g[i][j]) ==> g[i][j] <= MAX_ENTRY
}

/// A well-formed cost grid: square, within the size limits, `INF` on the
/// diagonal, and every finite entry within `MAX_ENTRY`.
pub open spec fn wf_grid(g: Seq<Seq<u64>>) -> bool {
    &&& 1 <= g.len() <= MAX_DIM
    &&& grid_square(g)
    &&& grid_diag_inf(g)
    &&& grid_entries_ok(g)
}

/// The rows a caller hands in, as a grid of sequences.
pub open spec fn grid_of(rows: Seq<Vec<u64>>) -> Seq<Seq<u64>> {
    rows.map_values(|r: Vec<u64>| r@)
}

/// The grid `g` with entry `(i, j)` replaced by `v`.
pub open spec fn grid_update(g: Seq<Seq<u64>>, i: int, j: int, v: u64) -> Seq<Seq<u64>> {
    g.update(i, g[i].update(j, v))
}

/// The smaller of two costs; `INF` is larger than every finite cost.
pub open spec fn min2(a: u64, b: u64) -> u64 {
    if a <= b {
        a
    } else {
        b
    }
}

/// Minimum of a row or column; `INF` when empty or all-`INF`.
pub open spec fn seq_min(s: Seq<u64>) -> u64
    decreases s.len(),
{
    if s.len() == 0 {
        INF
    } else {
        min2(seq_min(s.drop_last()), s.last())
    }
}

/// Contribution of a minimum to the reduction cost: an `INF` minimum
/// (an exhausted row or column) adds nothing.
pub open spec fn fin0(x: u64) -> int {
    if fin(x) {
        x as int
    } else {
        0
    }
}

/// Sum of the contributions of a sequence of minima.
pub open spec fn sum0(s: Seq<u64>) -> int
    decreases s.len(),
{
    if s.len() == 0 {
        0
    } else {
        sum0(s.drop_last()) + fin0(s.last())
    }
}

/// One entry after subtracting a minimum: `INF` entries and `INF` minima
/// are left alone.
pub open spec fn sub_red(e: u64, m: u64) -> u64 {
    if !fin(e) || !fin(m) {
        e
    } else if m <= e {
        (e - m) as u64
    } else {
        0
    }
}

/// The minima of all rows.
pub open spec fn row_mins(g: Seq<Seq<u64>>) -> Seq<u64> {
    Seq::new(g.len(), |i: int| seq_min(g[i]))
}

/// Column `j` of a square grid, as a sequence.
pub open spec fn col_seq(g: Seq<Seq<u64>>, j: int) -> Seq<u64> {
    Seq::new(g.len(), |i: int| g[i][j])
}

/// The minima of all columns.
pub open spec fn col_mins(g: Seq<Seq<u64>>) -> Seq<u64> {
    Seq::new(g.len(), |j: int| seq_min(col_seq(g, j)))
}

/// The grid after subtracting each row's minimum from its finite entries.
pub open spec fn row_reduced(g: Seq<Seq<u64>>) -> Seq<Seq<u64>> {
    Seq::new(g.len(), |i: int| Seq::new(g.len(), |j: int| sub_red(g[i][j], seq_min(g[i]))))
}

/// The grid after subtracting each column's minimum from its finite entries.
pub open spec fn col_reduced(g: Seq<Seq<u64>>) -> Seq<Seq<u64>> {
    Seq::new(
        g.len(),
        |i: int| Seq::new(g.len(), |j: int| sub_red(g[i][j], seq_min(col_seq(g, j)))),
    )
}

/// The fully reduced grid: rows first, then columns of the row-reduced grid.
pub open spec fn reduced(g: Seq<Seq<u64>>) -> Seq<Seq<u64>> {
    col_reduced(row_reduced(g))
}

/// The reduction cost: the sum of all row minima of `g` and of all column
/// minima of the row-reduced grid, `INF` minima counting as zero.
pub open spec fn reduction_cost(g: Seq<Seq<u64>>) -> int {
    sum0(row_mins(g)) + sum0(col_mins(row_reduced(g)))
}

/// The minimum never exceeds any element.
proof fn lemma_seq_min_le(s: Seq<u64>, k: int)
    requires
        0 <= k < s.len(),
    ensures
        seq_min(s) <= s[k],
    decreases s.len(),
{
    if k == s.len() - 1 {
    } else {
        lemma_seq_min_le(s.drop_last(), k);
    }
}

/// A non-empty sequence attains its minimum.
proof fn lemma_seq_min_attained(s: Seq<u64>)
    requires
        s.len() > 0,
    ensures
        exists|k: int| 0 <= k < s.len() && s[k] == seq_min(s),
    decreases s.len(),
{
    if s.len() == 1 {
        assert(s[0] == seq_min(s));
    } else if seq_min(s) == s.last() {
        assert(s[s.len() - 1] == seq_min(s));
    } else {
        lemma_seq_min_attained(s.drop_last());
        let k = choose|k: int| 0 <= k < s.drop_last().len() && s.drop_last()[k] == seq_min(
            s.drop_last(),
        );
        assert(s[k] == seq_min(s));
    }
}

/// Sums of bounded minima are bounded.
proof fn lemma_sum0_bound(s: Seq<u64>, b: int)
    requires
        forall|k: int| 0 <= k < s.len() ==> fin0(#[trigger] s[k]) <= b,
        b >= 0,
    ensures
        0 <= sum0(s) <= s.len() * b,
    decreases s.len(),
{
    if s.len() > 0 {
        lemma_sum0_bound(s.drop_last(), b);
        assert(fin0(s.last()) >= 0);
        assert((s.len() - 1) * b + b == s.len() * b) by (nonlinear_arith);
    }
}

/// Reducing never raises an entry, never revives an `INF` entry, and keeps
/// the grid square; so a well-formed grid stays well formed.
pub proof fn lemma_reduced_entries(g: Seq<Seq<u64>>)
    ensures
        reduced(g).len() == g.len(),
        forall|i: int| 0 <= i < g.len() ==> (#[trigger] reduced(g)[i]).len() == g.len(),
        forall|i: int, j: int|
            0 <= i < g.len() && 0 <= j < g.len() && fin(#[trigger] reduced(g)[i][j]) ==> fin(
                g[i][j],
            ) && reduced(g)[i][j] <= g[i][j],
        forall|i: int, j: int|
            0 <= i < g.len() && 0 <= j < g.len() && !fin(#[trigger] g[i][j]) ==> reduced(g)[i][j]
                == INF,
{
    assert forall|i: int, j: int|
        0 <= i < g.len() && 0 <= j < g.len() implies ((fin(#[trigger] reduced(g)[i][j]) ==> fin(
        g[i][j],
    ) && reduced(g)[i][j] <= g[i][j]) && (!fin(g[i][j]) ==> reduced(g)[i][j] == INF)) by {
        let r1 = row_reduced(g)[i][j];
        assert(r1 == sub_red(g[i][j], seq_min(g[i])));
        assert(reduced(g)[i][j] == sub_red(r1, seq_min(col_seq(row_reduced(g), j))));
    }
}

/// A well-formed grid yields a reduction cost between 0 and
/// `2 * n * MAX_ENTRY`.
pub proof fn lemma_reduction_cost_bound(g: Seq<Seq<u64>>)
    requires
        wf_grid(g),
    ensures
        0 <= reduction_cost(g) <= 2 * g.len() * MAX_ENTRY,
{
    let n = g.len() as int;
    assert forall|k: int| 0 <= k < n implies fin0(#[trigger] row_mins(g)[k]) <= MAX_ENTRY by {
        if fin(row_mins(g)[k]) {
            lemma_seq_min_attained(g[k]);
        }
    }
    lemma_sum0_bound(row_mins(g), MAX_ENTRY as int);
    let rr = row_reduced(g);
    assert forall|k: int| 0 <= k < n implies fin0(#[trigger] col_mins(rr)[k]) <= MAX_ENTRY by {
        if fin(col_mins(rr)[k]) {
            lemma_seq_min_attained(col_seq(rr, k));
            let i = choose|i: int|
                0 <= i < n && col_seq(rr, k)[i] == seq_min(col_seq(rr, k));
            assert(rr[i][k] == sub_red(g[i][k], seq_min(g[i])));
        }
    }
    lemma_sum0_bound(col_mins(rr), MAX_ENTRY as int);
    assert(g.len() * MAX_ENTRY + g.len() * MAX_ENTRY == 2 * g.len() * MAX_ENTRY) by (nonlinear_arith);
}

/// Reducing a 2-by-2 grid whose only finite entries are the two
/// off-diagonal ones costs exactly those two entries — each row's own
/// minimum — and nothing beyond them: both entries drop to zero, so the
/// column pass finds only zeros and adds nothing.
pub proof fn lemma_reduce_two_by_two(a: u64, b: u64)
    requires
        fin(a),
        fin(b),
    ensures
        reduction_cost(seq![seq![INF, a], seq![b, INF]]) == a + b,
        reduced(seq![seq![INF, a], seq![b, INF]]) == seq![seq![INF, 0u64], seq![0u64, INF]],
{
    let g = seq![seq![INF, a], seq![b, INF]];
    assert(seq_min(Seq::<u64>::empty()) == INF);
    assert(seq![INF].drop_last() =~= Seq::<u64>::empty());
    assert(seq_min(seq![INF]) == INF);
    assert(seq![b].drop_last() =~= Seq::<u64>::empty());
    assert(seq_min(seq![b]) == b);
    assert(seq![0u64].drop_last() =~= Seq::<u64>::empty());
    assert(seq_min(seq![0u64]) == 0);
    assert(g[0].drop_last() =~= seq![INF]);
    assert(seq_min(g[0]) == a);
    assert(g[1].drop_last() =~= seq![b]);
    assert(seq_min(g[1]) == b);
    assert(row_mins(g) =~= seq![a, b]);
    assert(sum0(Seq::<u64>::empty()) == 0);
    assert(seq![a].drop_last() =~= Seq::<u64>::empty());
    assert(sum0(seq![a]) == a as int);
    assert(seq![a, b].drop_last() =~= seq![a]);
    assert(sum0(seq![a, b]) == a + b);
    assert(sum0(row_mins(g)) == a + b);

    let rr = row_reduced(g);
    assert(rr[0] =~= seq![INF, 0u64]);
    assert(rr[1] =~= seq![0u64, INF]);
    assert(col_seq(rr, 0) =~= seq![INF, 0u64]);
    assert(col_seq(rr, 1) =~= seq![0u64, INF]);
    assert(seq![INF, 0u64].drop_last() =~= seq![INF]);
    assert(seq_min(seq![INF, 0u64]) == 0);
    assert(seq_min(col_seq(rr, 0)) == 0);
    assert(seq![0u64, INF].drop_last() =~= seq![0u64]);
    assert(seq_min(seq![0u64, INF]) == 0);
    assert(seq_min(col_seq(rr, 1)) == 0);
    assert(col_mins(rr) =~= seq![0u64, 0u64]);
    assert(sum0(seq![0u64]) == 0);
    assert(seq![0u64, 0u64].drop_last() =~= seq![0u64]);
    assert(sum0(seq![0u64, 0u64]) == 0);
    assert(sum0(col_mins(rr)) == 0);

    assert(reduced(g)[0] =~= seq![INF, 0u64]);
    assert(reduced(g)[1] =~= seq![0u64, INF]);
    assert(reduced(g) =~~= seq![seq![INF, 0u64], seq![0u64, INF]]);
}

/// Reason a grid is rejected by `CostMatrix::new`.
#[derive(Debug, Clone, Copy, PartialEq, Eq, Structural)]
pub enum MatrixError {
    /// No rows at all.
    Empty,
    /// More than `MAX_DIM` rows.
    TooLarge,
    /// Some row's length differs from the number of rows.
    NotSquare,
    /// Some diagonal entry is not `INF`.
    BadDiagonal,
    /// Some finite entry exceeds `MAX_ENTRY`.
    EntryTooLarge,
}

/// An `n`-by-`n` cost matrix, stored row-major.
pub struct CostMatrix {
    n: usize,
    e: Vec<u64>,
}

impl View for CostMatrix {
    type V = Seq<Seq<u64>>;

    closed spec fn view(&self) -> Seq<Seq<u64>> {
        Seq::new(
            self.n as nat,
            |i: int| Seq::new(self.n as nat, |j: int| self.e@[i * self.n + j]),
        )
    }
}

proof fn lemma_flat_idx_unique(n: int, i1: int, j1: int, i2: int, j2: int)
    by (nonlinear_arith)
    requires
        0 <= i1,
        0 <= i2,
        0 <= j1 < n,
        0 <= j2 < n,
        i1 * n + j1 == i2 * n + j2,
    ensures
        i1 == i2 && j1 == j2,
{
}

proof fn lemma_flat_idx_bounds(n: int, i: int, j: int)
    by (nonlinear_arith)
    requires
        0 <= i < n,
        0 <= j < n,
        n <= MAX_DIM,
    ensures
        0 <= i * n + j < n * n,
        n * n <= MAX_DIM * MAX_DIM,
{
}

impl CostMatrix {
    /// The stored dimension and flat length agree; needed by every method.
    pub closed spec fn inv(self) -> bool {
        &&& 1 <= self.n <= MAX_DIM
        &&& self.e@.len() == self.n * self.n
    }

    /// The grid the matrix holds is well formed.
    pub open spec fn wf(self) -> bool {
        wf_grid(self@)
    }

    /// Validate a grid of rows and take ownership of it. Exactly the
    /// well-formed grids are accepted; each rejection names the first
    /// failing check, in the order empty, too large, not square, diagonal,
    /// entry range.
    pub fn new(rows: Vec<Vec<u64>>) -> (r: Result<CostMatrix, MatrixError>)
        ensures
            ({
                let g = grid_of(rows@);
                &&& (r is Ok <==> wf_grid(g))
                &&& (r matches Ok(m) ==> m.inv() && m@ == g)
                &&& (r == Err::<CostMatrix, MatrixError>(MatrixError::Empty) <==> g.len() == 0)
                &&& (r == Err::<CostMatrix, MatrixError>(MatrixError::TooLarge) <==> g.len()
                    > MAX_DIM)
                &&& (r == Err::<CostMatrix, MatrixError>(MatrixError::NotSquare) <==> 1 <= g.len()
                    <= MAX_DIM && !grid_square(g))
                &&& (r == Err::<CostMatrix, MatrixError>(MatrixError::BadDiagonal) <==> 1
                    <= g.len() <= MAX_DIM && grid_square(g) && !grid_diag_inf(g))
                &&& (r == Err::<CostMatrix, MatrixError>(MatrixError::EntryTooLarge) <==> 1
                    <= g.len() <= MAX_DIM && grid_square(g) && grid_diag_inf(g)
                    && !grid_entries_ok(g))
            }),
    {
        let ghost g = grid_of(rows@);
        let n = rows.len();
        if n == 0 {
            return Err(MatrixError::Empty);
        }
        if n > MAX_DIM {
            return Err(MatrixError::TooLarge);
        }
        let mut i: usize = 0;
        while i < n
            invariant
                n == rows@.len(),
                1 <= n <= MAX_DIM,
                i <= n,
                g == grid_of(rows@),
                forall|k: int| 0 <= k < i ==> (#[trigger] g[k]).len() == n,
            decreases n - i,
        {
            if rows[i].len() != n {
                assert(g[i as int].len() != n);
                return Err(MatrixError::NotSquare);
            }
            i += 1;
        }
        assert(grid_square(g));
        let mut i: usize = 0;
        while i < n
            invariant
                n == rows@.len(),
                1 <= n <= MAX_DIM,
                i <= n,
                g == grid_of(rows@),
                grid_square(g),
                forall|k: int| 0 <= k < i ==> #[trigger] g[k][k] == INF,
            decreases n - i,
        {
            proof {
                assert(g[i as int] == rows@[i as int]@);
            }
            if rows[i][i] != INF {
                assert(g[i as int][i as int] != INF);
                return Err(MatrixError::BadDiagonal);
            }
            i += 1;
        }
        assert(grid_diag_inf(g));
        let mut i: usize = 0;
        while i < n
            invariant
                n == rows@.len(),
                1 <= n <= MAX_DIM,
                i <= n,
                g == grid_of(rows@),
                grid_square(g),
                grid_diag_inf(g),
                forall|k: int, l: int|
                    0 <= k < i && 0 <= l < n && fin(#[trigger] g[k][l]) ==> g[k][l] <= MAX_ENTRY,
            decreases n - i,
        {
            let mut j: usize = 0;
            while j < n
                invariant
                    n == rows@.len(),
                    1 <= n <= MAX_DIM,
                    i < n,
                    j <= n,
                    g == grid_of(rows@),
                    grid_square(g),
                    grid_diag_inf(g),
                    forall|k: int, l: int|
                        0 <= k < i && 0 <= l < n && fin(#[trigger] g[k][l]) ==> g[k][l]
                            <= MAX_ENTRY,
                    forall|l: int|
                        0 <= l < j && fin(#[trigger] g[i as int][l]) ==> g[i as int][l]
                            <= MAX_ENTRY,
                decreases n - j,
            {
                proof {
                    assert(g[i as int] == rows@[i as int]@);
                }
                let v = rows[i][j];
                if v != INF && v > MAX_ENTRY {
                    assert(fin(g[i as int][j as int]) && g[i as int][j as int] > MAX_ENTRY);
                    return Err(MatrixError::EntryTooLarge);
                }
                j += 1;
            }
            i += 1;
        }
        assert(grid_entries_ok(g));

        // Flatten row-major.
        let mut e: Vec<u64> = Vec::new();
        let mut i: usize = 0;
        while i < n
            invariant
                n == rows@.len(),
                1 <= n <= MAX_DIM,
                i <= n,
                g == grid_of(rows@),
                wf_grid(g),
                e@.len() == i * n,
                forall|k: int, l: int|
                    0 <= k < i && 0 <= l < n ==> e@[k * n + l] == #[trigger] g[k][l],
            decreases n - i,
        {
            let mut j: usize = 0;
            while j < n
                invariant
                    n == rows@.len(),
                    1 <= n <= MAX_DIM,
                    i < n,
                    j <= n,
                    g == grid_of(rows@),
                    wf_grid(g),
                    e@.len() == i * n + j,
                    forall|k: int, l: int|
                        0 <= k < i && 0 <= l < n ==> e@[k * n + l] == #[trigger] g[k][l],
                    forall|l: int| 0 <= l < j ==> e@[i as int * n + l] == #[trigger] g[i as int][l],
                decreases n - j,
            {
                proof {
                    assert(g[i as int] == rows@[i as int]@);
                }
                let ghost olde = e@;
                e.push(rows[i][j]);
                proof {
                    assert forall|k: int, l: int|
                        0 <= k < i && 0 <= l < n implies e@[k * n + l] == #[trigger] g[k][l] by {
                        lemma_flat_idx_bounds(n as int, k, l);
                        assert(k * n + l < i as int * n + j) by (nonlinear_arith)
                            requires
                                0 <= k < i as int,
                                0 <= l < n,
                                j as int >= 0,
                        ;
                        assert(e@[k * n + l] == olde[k * n + l]);
                    }
                }
                j += 1;
            }
            proof {
                assert(i as int * n + n == (i as int + 1) * n) by (nonlinear_arith);
            }
            i += 1;
        }
        let m = CostMatrix { n, e };
        proof {
            assert(n * n <= MAX_DIM * MAX_DIM) by (nonlinear_arith)
                requires
                    1 <= n <= MAX_DIM,
            ;
            assert(m@ =~~= g);
        }
        Ok(m)
    }

    pub fn dim(&self) -> (n: usize)
        requires
            self.inv(),
        ensures
            n == self@.len(),
    {
        self.n
    }

    pub fn get(&self, i: usize, j: usize) -> (r: u64)
        requires
            self.inv(),
            i < self@.len(),
            j < self@.len(),
        ensures
            r == self@[i as int][j as int],
    {
        proof {
            lemma_flat_idx_bounds(self.n as int, i as int, j as int);
        }
        self.e[i * self.n + j]
    }

    pub fn set(&mut self, i: usize, j: usize, v: u64)
        requires
            old(self).inv(),
            i < old(self)@.len(),
            j < old(self)@.len(),
        ensures
            final(self).inv(),
            final(self)@ == grid_update(old(self)@, i as int, j as int, v),
    {
        proof {
            lemma_flat_idx_bounds(self.n as int, i as int, j as int);
        }
        let k: usize = i * self.n + j;
        self.e[k] = v;
        proof {
            assert forall|i2: int, j2: int|
                0 <= i2 < self.n && 0 <= j2 < self.n implies #[trigger] self@[i2][j2]
                == grid_update(old(self)@, i as int, j as int, v)[i2][j2] by {
                lemma_flat_idx_bounds(self.n as int, i2, j2);
                if i2 * self.n + j2 == k {
                    lemma_flat_idx_unique(self.n as int, i2, j2, i as int, j as int);
                }
            }
            assert(self@ =~~= grid_update(old(self)@, i as int, j as int, v));
        }
    }

    /// An owned copy with the same contents.
    pub fn duplicate(&self) -> (r: CostMatrix)
        requires
            self.inv(),
        ensures
            r.inv(),
            r@ == self@,
    {
        let mut e2: Vec<u64> = Vec::new();
        let len = self.e.len();
        let mut k: usize = 0;
        while k < len
            invariant
                len == self.e@.len(),
                k <= len,
                e2@ == self.e@.take(k as int),
            decreases len - k,
        {
            e2.push(self.e[k]);
            proof {
                assert(e2@ =~= self.e@.take(k + 1 as int));
            }
            k += 1;
        }
        proof {
            assert(e2@ =~= self.e@);
        }
        let r = CostMatrix { n: self.n, e: e2 };
        proof {
            assert(r@ =~~= self@);
        }
        r
    }

    /// Set every entry of row `i` to `INF`.
    pub fn fill_row(&mut self, i: usize)
        requires
            old(self).inv(),
            i < old(self)@.len(),
        ensures
            final(self).inv(),
            final(self)@.len() == old(self)@.len(),
            final(self)@[i as int] == Seq::new(old(self)@.len(), |c: int| INF),
            forall|r: int|
                0 <= r < old(self)@.len() && r != i ==> #[trigger] final(self)@[r] == old(
                    self,
                )@[r],
    {
        let n = self.dim();
        let mut j: usize = 0;
        while j < n
            invariant
                self.inv(),
                i < n,
                j <= n,
                self@.len() == n,
                forall|c: int| 0 <= c < j ==> #[trigger] self@[i as int][c] == INF,
                forall|c: int| j <= c < n ==> #[trigger] self@[i as int][c] == old(self)@[i as int][c],
                forall|r: int| 0 <= r < n && r != i ==> #[trigger] self@[r] == old(self)@[r],
            decreases n - j,
        {
            let ghost prev = self@;
            self.set(i, j, INF);
            proof {
                assert forall|r: int| 0 <= r < n && r != i implies #[trigger] self@[r] == old(
                    self,
                )@[r] by {
                    assert(self@[r] == prev[r]);
                }
            }
            j += 1;
        }
        proof {
            assert(self@[i as int] =~= Seq::new(old(self)@.len(), |c: int| INF));
        }
    }

    /// Set every entry of column `j` to `INF`.
    pub fn fill_col(&mut self, j: usize)
        requires
            old(self).inv(),
            j < old(self)@.len(),
        ensures
            final(self).inv(),
            final(self)@.len() == old(self)@.len(),
            forall|r: int|
                0 <= r < old(self)@.len() ==> #[trigger] final(self)@[r] == old(self)@[r].update(
                    j as int,
                    INF,
                ),
    {
        let n = self.dim();
        let mut i: usize = 0;
        while i < n
            invariant
                self.inv(),
                j < n,
                i <= n,
                self@.len() == n,
                forall|r: int|
                    0 <= r < i ==> #[trigger] self@[r] == old(self)@[r].update(j as int, INF),
                forall|r: int| i <= r < n ==> #[trigger] self@[r] == old(self)@[r],
            decreases n - i,
        {
            let ghost prev = self@;
            self.set(i, j, INF);
            proof {
                assert forall|r: int|
                    0 <= r < i + 1 implies #[trigger] self@[r] == old(self)@[r].update(
                    j as int,
                    INF,
                ) by {
                    if r < i {
                        assert(self@[r] == prev[r]);
                    } else {
                        assert(self@[r] =~= prev[r].update(j as int, INF));
                    }
                }
            }
            i += 1;
        }
    }

    /// Minimum entry of row `i`.
    fn row_min(&self, i: usize) -> (m: u64)
        requires
            self.inv(),
            i < self@.len(),
        ensures
            m == seq_min(self@[i as int]),
    {
        let n = self.dim();
        let mut m: u64 = INF;
        let mut j: usize = 0;
        while j < n
            invariant
                self.inv(),
                i < n,
                j <= n,
                self@.len() == n,
                m == seq_min(self@[i as int].take(j as int)),
            decreases n - j,
        {
            let v = self.get(i, j);
            proof {
                let row = self@[i as int];
                assert(row.take(j as int + 1).drop_last() =~= row.take(j as int));
                assert(row.take(j as int + 1).last() == row[j as int]);
            }
            if v < m {
                m = v;
            }
            j += 1;
        }
        proof {
            assert(self@[i as int].take(n as int) =~= self@[i as int]);
        }
        m
    }

    /// Minimum entry of column `j`.
    fn col_min(&self, j: usize) -> (m: u64)
        requires
            self.inv(),
            j < self@.len(),
        ensures
            m == seq_min(col_seq(self@, j as int)),
    {
        let n = self.dim();
        let mut m: u64 = INF;
        let mut i: usize = 0;
        while i < n
            invariant
                self.inv(),
                j < n,
                i <= n,
                self@.len() == n,
                m == seq_min(col_seq(self@, j as int).take(i as int)),
            decreases n - i,
        {
            let v = self.get(i, j);
            proof {
                let c = col_seq(self@, j as int);
                assert(c.take(i as int + 1).drop_last() =~= c.take(i as int));
                assert(c.take(i as int + 1).last() == c[i as int]);
            }
            if v < m {
                m = v;
            }
            i += 1;
        }
        proof {
            assert(col_seq(self@, j as int).take(n as int) =~= col_seq(self@, j as int));
        }
        m
    }

    /// Subtract `m` from every finite entry of row `i` (no-op when `m` is
    /// `INF`, which happens exactly when the whole row is `INF`).
    fn sub_row(&mut self, i: usize, m: u64)
        requires
            old(self).inv(),
            i < old(self)@.len(),
            m == seq_min(old(self)@[i as int]),
        ensures
            final(self).inv(),
            final(self)@.len() == old(self)@.len(),
            final(self)@[i as int] == Seq::new(
                old(self)@.len(),
                |j: int| sub_red(old(self)@[i as int][j], m),
            ),
            forall|r: int|
                0 <= r < old(self)@.len() && r != i ==> #[trigger] final(self)@[r] == old(
                    self,
                )@[r],
    {
        let n = self.dim();
        let ghost row0 = self@[i as int];
        let mut j: usize = 0;
        while j < n
            invariant
                self.inv(),
                i < n,
                j <= n,
                self@.len() == n,
                row0.len() == n,
                m == seq_min(row0),
                forall|c: int| 0 <= c < j ==> #[trigger] self@[i as int][c] == sub_red(row0[c], m),
                forall|c: int| j <= c < n ==> #[trigger] self@[i as int][c] == row0[c],
                forall|r: int| 0 <= r < n && r != i ==> #[trigger] self@[r] == old(self)@[r],
            decreases n - j,
        {
            let v = self.get(i, j);
            let ghost prev = self@;
            if v != INF && m != INF {
                proof {
                    lemma_seq_min_le(row0, j as int);
                }
                self.set(i, j, v - m);
            }
            proof {
                assert forall|r: int| 0 <= r < n && r != i implies #[trigger] self@[r] == old(
                    self,
                )@[r] by {
                    assert(self@[r] == prev[r]);
                }
            }
            j += 1;
        }
        proof {
            assert(self@[i as int] =~= Seq::new(row0.len(), |j: int| sub_red(row0[j], m)));
        }
    }

    /// Row/column reduction: subtract each row's minimum from its finite
    /// entries, then each column's minimum of the result, and return the
    /// total reduction cost (`INF` minima contribute nothing).
    pub fn reduce(&mut self) -> (c: u64)
        requires
            old(self).inv(),
            wf_grid(old(self)@),
        ensures
            final(self).inv(),
            final(self)@ == reduced(old(self)@),
            c as int == reduction_cost(old(self)@),
    {
        let n = self.dim();
        let ghost g0 = self@;
        proof {
            lemma_reduction_cost_bound(g0);
        }

        // Row phase.
        let mut acc: u64 = 0;
        let mut i: usize = 0;
        while i < n
            invariant
                self.inv(),
                i <= n,
                self@.len() == n,
                g0.len() == n,
                wf_grid(g0),
                forall|r: int| 0 <= r < i ==> #[trigger] self@[r] == row_reduced(g0)[r],
                forall|r: int| i <= r < n ==> #[trigger] self@[r] == g0[r],
                acc as int == sum0(row_mins(g0).take(i as int)),
                acc as int <= i * (MAX_ENTRY as int),
            decreases n - i,
        {
            let m = self.row_min(i);
            proof {
                assert(self@[i as int] == g0[i as int]);
                let rm = row_mins(g0);
                assert(rm.take(i as int + 1).drop_last() =~= rm.take(i as int));
                assert(rm.take(i as int + 1).last() == rm[i as int]);
                if fin(m) {
                    lemma_seq_min_attained(g0[i as int]);
                }
                assert(fin0(m) <= MAX_ENTRY as int);
                assert((i as int) * (MAX_ENTRY as int) + (MAX_ENTRY as int) == (i as int + 1) * (
                MAX_ENTRY as int)) by (nonlinear_arith);
            }
            self.sub_row(i, m);
            proof {
                assert(self@[i as int] =~= row_reduced(g0)[i as int]);
            }
            if m != INF {
                acc = acc + m;
            }
            i += 1;
        }
        proof {
            assert(row_mins(g0).take(n as int) =~= row_mins(g0));
            assert(forall|r: int| 0 <= r < n ==> #[trigger] self@[r] == row_reduced(g0)[r]);
            assert(self@ =~= row_reduced(g0));
        }
        let ghost g1 = row_reduced(g0);

        // Column minima of the row-reduced grid.
        let mut cmins: Vec<u64> = Vec::new();
        let mut acc2: u64 = 0;
        let mut j: usize = 0;
        while j < n
            invariant
                self.inv(),
                j <= n,
                self@.len() == n,
                g1.len() == n,
                self@ == g1,
                g0.len() == n,
                wf_grid(g0),
                g1 == row_reduced(g0),
                cmins@.len() == j,
                forall|k: int| 0 <= k < j ==> #[trigger] cmins@[k] == col_mins(g1)[k],
                acc2 as int == sum0(col_mins(g1).take(j as int)),
                acc2 as int <= j * (MAX_ENTRY as int),
            decreases n - j,
        {
            let m = self.col_min(j);
            proof {
                let cm = col_mins(g1);
                assert(cm.take(j as int + 1).drop_last() =~= cm.take(j as int));
                assert(cm.take(j as int + 1).last() == cm[j as int]);
                if fin(m) {
                    lemma_seq_min_attained(col_seq(g1, j as int));
                    let i0 = choose|i0: int|
                        0 <= i0 < n && col_seq(g1, j as int)[i0] == seq_min(
                            col_seq(g1, j as int),
                        );
                    assert(g1[i0][j as int] == sub_red(g0[i0][j as int], seq_min(g0[i0])));
                }
                assert(fin0(m) <= MAX_ENTRY as int);
                assert((j as int) * (MAX_ENTRY as int) + (MAX_ENTRY as int) == (j as int + 1) * (
                MAX_ENTRY as int)) by (nonlinear_arith);
            }
            cmins.push(m);
            if m != INF {
                acc2 = acc2 + m;
            }
            j += 1;
        }
        proof {
            assert(col_mins(g1).take(n as int) =~= col_mins(g1));
        }

        // Column phase, row by row.
        let mut i2: usize = 0;
        while i2 < n
            invariant
                self.inv(),
                i2 <= n,
                self@.len() == n,
                g1.len() == n,
                cmins@.len() == n,
                forall|k: int| 0 <= k < n ==> #[trigger] cmins@[k] == col_mins(g1)[k],
                forall|r: int| 0 <= r < i2 ==> #[trigger] self@[r] == col_reduced(g1)[r],
                forall|r: int| i2 <= r < n ==> #[trigger] self@[r] == g1[r],
            decreases n - i2,
        {
            let mut j2: usize = 0;
            while j2 < n
                invariant
                    self.inv(),
                    i2 < n,
                    j2 <= n,
                    self@.len() == n,
                    g1.len() == n,
                    cmins@.len() == n,
                    forall|k: int| 0 <= k < n ==> #[trigger] cmins@[k] == col_mins(g1)[k],
                    forall|r: int| 0 <= r < i2 ==> #[trigger] self@[r] == col_reduced(g1)[r],
                    forall|r: int| i2 < r < n ==> #[trigger] self@[r] == g1[r],
                    forall|c: int|
                        0 <= c < j2 ==> #[trigger] self@[i2 as int][c] == col_reduced(g1)[i2 as int][c],
                    forall|c: int| j2 <= c < n ==> #[trigger] self@[i2 as int][c] == g1[i2 as int][c],
                decreases n - j2,
            {
                let v = self.get(i2, j2);
                let mj = cmins[j2];
                let ghost prev = self@;
                if v != INF && mj != INF {
                    proof {
                        lemma_seq_min_le(col_seq(g1, j2 as int), i2 as int);
                        assert(col_seq(g1, j2 as int)[i2 as int] == g1[i2 as int][j2 as int]);
                    }
                    self.set(i2, j2, v - mj);
                }
                proof {
                    assert forall|r: int| 0 <= r < n && r != i2 implies #[trigger] self@[r]
                        == prev[r] by {}
                    assert(self@[i2 as int][j2 as int] == sub_red(
                        g1[i2 as int][j2 as int],
                        col_mins(g1)[j2 as int],
                    ));
                }
                j2 += 1;
            }
            proof {
                assert(self@[i2 as int] =~= col_reduced(g1)[i2 as int]);
            }
            i2 += 1;
        }
        proof {
            assert(self@ =~= col_reduced(g1));
            assert(acc as int + acc2 as int <= 2 * 1024 * (MAX_ENTRY as int));
        }
        acc + acc2
    }
}

} // verus!
