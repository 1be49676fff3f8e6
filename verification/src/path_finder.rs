//! Exact traveling-salesman search: branch and bound over reduced cost
//! matrices, expanding the frontier node with the least lower bound first.

use vstd::prelude::*;
use vstd::multiset::Multiset;
use crate::matrix::{
    fin, grid_square, lemma_reduced_entries, lemma_reduction_cost_bound, reduced, reduction_cost,
    wf_grid, CostMatrix, INF, MAX_DIM, MAX_ENTRY,
};
use crate::frontier::{entry_le, heap_elems, heap_new, heap_pop_min, heap_push};

verus! {

/// One committed leg of the tour: cost-matrix indices (from, to).
#[derive(Debug, Clone, Copy, PartialEq, Eq, Structural)]
pub struct PathEdge(pub usize, pub usize);

impl PathEdge {
    /// The departure vertex of this leg.
    pub fn from(&self) -> (r: usize)
        ensures
            r == self.0,
    {
        self.0
    }

    /// The destination vertex of this leg.
    pub fn to(&self) -> (r: usize)
        ensures
            r == self.1,
    {
        self.1
    }
}

/// A finished tour: its total cost and its `n` edges.
#[derive(Debug)]
pub struct FindResult {
    cost: u64,
    path: Vec<PathEdge>,
}

impl FindResult {
    /// The total cost of the tour.
    pub closed spec fn spec_cost(self) -> u64 {
        self.cost
    }

    /// The edges of the tour, in travel order.
    pub closed spec fn spec_path(self) -> Seq<PathEdge> {
        self.path@
    }

    pub fn get_cost(&self) -> (r: u64)
        ensures
            r == self.spec_cost(),
    {
        self.cost
    }

    pub fn get_path(&self) -> (r: &Vec<PathEdge>)
        ensures
            r@ == self.spec_path(),
    {
        &self.path
    }
}

/// Sum of the grid entries along a sequence of edges.
pub open spec fn path_sum(g: Seq<Seq<u64>>, p: Seq<PathEdge>) -> int
    decreases p.len(),
{
    if p.len() == 0 {
        0
    } else {
        path_sum(g, p.drop_last()) + g[p.last().0 as int][p.last().1 as int]
    }
}

/// A closed tour over the grid `g`: exactly `n` edges, each finite in `g`,
/// consecutive edges chained, starting and ending at vertex 0, and no
/// vertex left twice — so every vertex is visited exactly once.
pub open spec fn valid_tour(g: Seq<Seq<u64>>, p: Seq<PathEdge>) -> bool {
    let n = g.len() as int;
    &&& p.len() == n
    &&& forall|k: int|
        0 <= k < n ==> (#[trigger] p[k]).0 < n && p[k].1 < n && fin(
            g[p[k].0 as int][p[k].1 as int],
        )
    &&& p[0].0 == 0
    &&& p[n - 1].1 == 0
    &&& forall|k: int| 0 <= k < n - 1 ==> (#[trigger] p[k]).1 == p[k + 1].0
    &&& forall|k1: int, k2: int| 0 <= k1 < k2 < n ==> (#[trigger] p[k1]).0 != (#[trigger] p[k2]).0
}

/// Every entry of row `r` is `INF`.
pub open spec fn row_all_inf(m: Seq<Seq<u64>>, r: int) -> bool {
    forall|c: int| 0 <= c < m.len() ==> #[trigger] m[r][c] == INF
}

/// Every entry of column `c` is `INF`.
pub open spec fn col_all_inf(m: Seq<Seq<u64>>, c: int) -> bool {
    forall|r: int| 0 <= r < m.len() ==> #[trigger] m[r][c] == INF
}

/// A partial-tour state: its own reduced-matrix snapshot, the committed
/// path, an admissible lower bound, the exact cost of the committed edges,
/// the current vertex, and the number of committed edges.
struct Node {
    path: Vec<PathEdge>,
    reduced_matrix: CostMatrix,
    bound: u64,
    path_cost: u64,
    vertex: usize,
    level: usize,
}

/// Everything the search relies on about a node relative to the original
/// grid `g`.
spec fn node_wf(nd: Node, g: Seq<Seq<u64>>) -> bool {
    let n = g.len() as int;
    let p = nd.path@;
    let m = nd.reduced_matrix@;
    &&& nd.level < n
    &&& p.len() == nd.level
    &&& nd.vertex < n
    &&& (nd.level == 0 ==> nd.vertex == 0)
    &&& (p.len() > 0 ==> p[0].0 == 0 && p.last().1 == nd.vertex)
    &&& forall|k: int| 0 <= k < p.len() - 1 ==> (#[trigger] p[k]).1 == p[k + 1].0
    &&& forall|k: int|
        0 <= k < p.len() ==> (#[trigger] p[k]).0 < n && p[k].1 < n && p[k].1 != 0 && fin(
            g[p[k].0 as int][p[k].1 as int],
        )
    &&& forall|k1: int, k2: int|
        0 <= k1 < k2 < p.len() ==> (#[trigger] p[k1]).1 != (#[trigger] p[k2]).1
    &&& nd.path_cost as int == path_sum(g, p)
    &&& nd.reduced_matrix.inv()
    &&& m.len() == n
    &&& grid_square(m)
    &&& forall|a: int, b: int|
        0 <= a < n && 0 <= b < n && fin(#[trigger] m[a][b]) ==> fin(g[a][b]) && m[a][b] <= g[a][b]
    &&& forall|k: int| 0 <= k < p.len() ==> row_all_inf(m, (#[trigger] p[k]).0 as int)
    &&& forall|k: int| 0 <= k < p.len() ==> col_all_inf(m, (#[trigger] p[k]).1 as int)
    &&& m[nd.vertex as int][0] == INF
    &&& nd.bound as int <= (nd.level + 1) * (2 * n + 1) * MAX_ENTRY
}

/// The grid after masking for a committed edge `(i, j)`: row `i` and
/// column `j` go to `INF` (skipped for the root, which commits no edge),
/// and the premature-return entry `(j, 0)` always does.
spec fn masked_grid(m: Seq<Seq<u64>>, level: int, i: int, j: int) -> Seq<Seq<u64>> {
    Seq::new(
        m.len(),
        |r: int|
            Seq::new(
                m.len(),
                |c: int|
                    if level != 0 && (r == i || c == j) {
                        INF
                    } else if r == j && c == 0 {
                        INF
                    } else {
                        m[r][c]
                    },
            ),
    )
}

/// The sum along a path of finite, bounded edges is bounded.
proof fn lemma_path_sum_bound(g: Seq<Seq<u64>>, p: Seq<PathEdge>)
    requires
        wf_grid(g),
        forall|k: int|
            0 <= k < p.len() ==> (#[trigger] p[k]).0 < g.len() && p[k].1 < g.len() && fin(
                g[p[k].0 as int][p[k].1 as int],
            ),
    ensures
        0 <= path_sum(g, p) <= p.len() * MAX_ENTRY,
    decreases p.len(),
{
    if p.len() > 0 {
        lemma_path_sum_bound(g, p.drop_last());
        assert(g[p.last().0 as int][p.last().1 as int] <= MAX_ENTRY);
        assert((p.len() - 1) * MAX_ENTRY + MAX_ENTRY == p.len() * MAX_ENTRY) by (nonlinear_arith);
    }
}

impl Node {
    /// Build the node reached by committing the edge `(i, j)` below a parent
    /// whose reduced matrix, path, bound-plus-edge (`base`) and exact path
    /// cost are handed in; with `level == 0` this builds the root instead
    /// (no edge, no masking). Masks row `i`, column `j` and the premature
    /// return `(j, 0)`, then reduces the matrix and adds the reduction cost
    /// to `base`.
    fn new(
        reduced_matrix: CostMatrix,
        level: usize,
        i: usize,
        j: usize,
        path: Vec<PathEdge>,
        base: u64,
        path_cost: u64,
        Ghost(g): Ghost<Seq<Seq<u64>>>,
    ) -> (nd: Node)
        requires
            wf_grid(g),
            reduced_matrix.inv(),
            reduced_matrix@.len() == g.len(),
            grid_square(reduced_matrix@),
            forall|a: int, b: int|
                0 <= a < g.len() && 0 <= b < g.len() && fin(#[trigger] reduced_matrix@[a][b])
                    ==> fin(g[a][b]) && reduced_matrix@[a][b] <= g[a][b],
            i < g.len(),
            j < g.len(),
            level < g.len(),
            level == 0 ==> path@.len() == 0 && i == 0 && j == 0 && base == 0 && path_cost == 0,
            level > 0 ==> ({
                &&& path@.len() == level - 1
                &&& fin(reduced_matrix@[i as int][j as int])
                &&& reduced_matrix@[i as int][0] == INF
                &&& (path@.len() > 0 ==> path@[0].0 == 0 && path@.last().1 == i)
                &&& (path@.len() == 0 ==> i == 0)
                &&& forall|k: int| 0 <= k < path@.len() - 1 ==> (#[trigger] path@[k]).1 == path@[k + 1].0
                &&& forall|k: int|
                    0 <= k < path@.len() ==> (#[trigger] path@[k]).0 < g.len() && path@[k].1
                        < g.len() && path@[k].1 != 0 && fin(g[path@[k].0 as int][path@[k].1 as int])
                &&& forall|k1: int, k2: int|
                    0 <= k1 < k2 < path@.len() ==> (#[trigger] path@[k1]).1 != (
                    #[trigger] path@[k2]).1
                &&& forall|k: int|
                    0 <= k < path@.len() ==> row_all_inf(reduced_matrix@, (#[trigger] path@[k]).0 as int)
                &&& forall|k: int|
                    0 <= k < path@.len() ==> col_all_inf(reduced_matrix@, (#[trigger] path@[k]).1 as int)
                &&& path_cost as int == path_sum(g, path@) + g[i as int][j as int]
                &&& base as int <= level * (2 * g.len() + 1) * MAX_ENTRY + MAX_ENTRY
            }),
        ensures
            node_wf(nd, g),
            nd.level == level,
            nd.vertex == j,
            nd.path_cost == path_cost,
            nd.path@ == if level == 0 {
                path@
            } else {
                path@.push(PathEdge(i, j))
            },
            nd.reduced_matrix@ == reduced(
                masked_grid(reduced_matrix@, level as int, i as int, j as int),
            ),
            nd.bound as int == base as int + reduction_cost(
                masked_grid(reduced_matrix@, level as int, i as int, j as int),
            ),
    {
        let ghost n = g.len() as int;
        let ghost p0 = path@;
        let mut path = path;
        if level != 0 {
            path.push(PathEdge(i, j));
            proof {
                assert(path@ == p0.push(PathEdge(i, j)));
            }
        }
        let mut m = reduced_matrix;
        let ghost m0 = m@;
        let ghost mut m1 = m@;
        if level != 0 {
            m.fill_row(i);
            proof {
                m1 = m@;
            }
            m.fill_col(j);
        }
        let ghost m2 = m@;
        m.set(j, 0, INF);
        let ghost masked = m@;

        proof {
            // The masked matrix is exactly the masking formula.
            assert forall|r: int, c: int|
                0 <= r < n && 0 <= c < n implies #[trigger] masked[r][c] == masked_grid(
                m0,
                level as int,
                i as int,
                j as int,
            )[r][c] by {
                if !(r == j && c == 0) {
                    assert(masked[r][c] == m2[r][c]);
                }
                if level != 0 {
                    assert(m2[r] == m1[r].update(j as int, INF));
                    if c != j {
                        assert(m2[r][c] == m1[r][c]);
                        if r != i {
                            assert(m1[r] == m0[r]);
                        } else {
                            assert(m1[r as int] == Seq::new(m0.len(), |c2: int| INF));
                        }
                    }
                }
            }
            assert(masked =~~= masked_grid(m0, level as int, i as int, j as int));
        }

        proof {
            // The masked matrix is still square, under the original grid,
            // and well formed.
            assert forall|a: int, b: int|
                0 <= a < n && 0 <= b < n && fin(#[trigger] masked[a][b]) implies fin(g[a][b])
                && masked[a][b] <= g[a][b] by {
                assert(fin(masked[a][b]) ==> masked[a][b] == reduced_matrix@[a][b]);
            }
            assert forall|a: int| 0 <= a < n implies (#[trigger] masked[a]).len() == n by {}
            assert forall|a: int| 0 <= a < n implies #[trigger] masked[a][a] == INF by {
                assert(!fin(g[a][a]));
                assert(fin(masked[a][a]) ==> fin(g[a][a]));
            }
            assert(wf_grid(masked));
            lemma_reduction_cost_bound(masked);
            // Rows and columns already exhausted stay exhausted after masking.
            assert forall|k: int|
                0 <= k < path@.len() implies row_all_inf(masked, (#[trigger] path@[k]).0 as int)
                && col_all_inf(masked, (#[trigger] path@[k]).1 as int) by {
                if level != 0 && k < path@.len() - 1 {
                    assert(path@[k] == p0[k]);
                    assert(row_all_inf(reduced_matrix@, path@[k].0 as int));
                    assert(col_all_inf(reduced_matrix@, path@[k].1 as int));
                    assert forall|c: int|
                        0 <= c < n implies #[trigger] masked[path@[k].0 as int][c] == INF by {
                        assert(fin(masked[path@[k].0 as int][c]) ==> masked[path@[k].0 as int][c]
                            == reduced_matrix@[path@[k].0 as int][c]);
                    }
                    assert forall|r: int|
                        0 <= r < n implies #[trigger] masked[r][path@[k].1 as int] == INF by {
                        assert(fin(masked[r][path@[k].1 as int]) ==> masked[r][path@[k].1 as int]
                            == reduced_matrix@[r][path@[k].1 as int]);
                    }
                }
                if level != 0 && k == path@.len() - 1 {
                    // The new edge's row and column were just filled.
                    assert(path@[k] == PathEdge(i, j));
                }
            }
        }

        let red = m.reduce();
        proof {
            lemma_reduced_entries(masked);
            assert(m@ == reduced(masked));
            assert(red as int == reduction_cost(masked));
        }

        // The new bound fits comfortably in u64.
        proof {
            assert(0 <= reduction_cost(masked) <= 2 * n * MAX_ENTRY);
            if level == 0 {
                assert(base as int + red as int <= (1) * (2 * n + 1) * MAX_ENTRY)
                    by (nonlinear_arith)
                    requires
                        base == 0,
                        red as int <= 2 * n * MAX_ENTRY,
                        n >= 1,
                ;
            } else {
                assert(base as int + red as int <= (level + 1) * (2 * n + 1) * MAX_ENTRY)
                    by (nonlinear_arith)
                    requires
                        base as int <= level * (2 * n + 1) * MAX_ENTRY + MAX_ENTRY,
                        red as int <= 2 * n * MAX_ENTRY,
                        n >= 1,
                        level >= 1,
                ;
            }
            assert((level + 1) * (2 * n + 1) * MAX_ENTRY < u64::MAX) by (nonlinear_arith)
                requires
                    0 <= level < n,
                    1 <= n <= MAX_DIM,
            ;
        }
        let bound = base + red;

        let nd = Node { path, reduced_matrix: m, bound, path_cost, vertex: j, level };
        proof {
            let p = nd.path@;
            let mv = nd.reduced_matrix@;
            // Masked-out rows and columns survive the reduction.
            assert forall|k: int|
                0 <= k < p.len() implies row_all_inf(mv, (#[trigger] p[k]).0 as int)
                && col_all_inf(mv, (#[trigger] p[k]).1 as int) by {
                assert(row_all_inf(masked, p[k].0 as int));
                assert(col_all_inf(masked, p[k].1 as int));
                assert forall|c: int| 0 <= c < n implies #[trigger] mv[p[k].0 as int][c]
                    == INF by {
                    assert(!fin(masked[p[k].0 as int][c]));
                }
                assert forall|r: int| 0 <= r < n implies #[trigger] mv[r][p[k].1 as int]
                    == INF by {
                    assert(!fin(masked[r][p[k].1 as int]));
                }
            }
            assert(mv[j as int][0] == INF) by {
                assert(!fin(masked[j as int][0]));
            }
            if level != 0 {
                // The committed edge leads somewhere new.
                assert(j != 0) by {
                    assert(fin(reduced_matrix@[i as int][j as int]));
                    assert(reduced_matrix@[i as int][0] == INF);
                }
                assert forall|k: int| 0 <= k < p.len() - 1 implies (#[trigger] p[k]).1 != j by {
                    assert(p[k] == p0[k]);
                    assert(col_all_inf(reduced_matrix@, p[k].1 as int));
                    assert(reduced_matrix@[i as int][p[k].1 as int] == INF);
                    assert(fin(reduced_matrix@[i as int][j as int]));
                }
                assert(fin(g[i as int][j as int]));
                assert(p =~= p0.push(PathEdge(i, j)));
                assert(path_sum(g, p) == path_sum(g, p0) + g[i as int][j as int]) by {
                    assert(p.drop_last() =~= p0);
                }
            }
            assert(node_wf(nd, g));
        }
        nd
    }
}

/// Weight of a frontier entry at depth `l` in a search over `n` vertices.
/// Popping an entry of weight `w` pushes at most `n` entries one level
/// deeper, of total weight `n * weight(n, l + 1) == w - 1`: the weighted
/// frontier sum shrinks every iteration, so the search terminates.
spec fn weight(n: int, l: int) -> int
    decreases n - l,
{
    if l >= n - 1 || l < 0 || n < 1 {
        1
    } else {
        n * weight(n, l + 1) + 1
    }
}

proof fn lemma_weight_pos(n: int, l: int)
    ensures
        weight(n, l) >= 1,
    decreases n - l,
{
    if !(l >= n - 1 || l < 0 || n < 1) {
        lemma_weight_pos(n, l + 1);
        assert(n * weight(n, l + 1) >= 0) by (nonlinear_arith)
            requires
                n >= 1,
                weight(n, l + 1) >= 1,
        ;
    }
}

/// Total weight of the frontier entries in `s`.
spec fn wsum(s: Seq<(u64, u64, u64)>, n: int) -> int
    decreases s.len(),
{
    if s.len() == 0 {
        0
    } else {
        wsum(s.drop_last(), n) + weight(n, s.last().2 as int)
    }
}

proof fn lemma_wsum_nonneg(s: Seq<(u64, u64, u64)>, n: int)
    ensures
        wsum(s, n) >= 0,
    decreases s.len(),
{
    if s.len() > 0 {
        lemma_wsum_nonneg(s.drop_last(), n);
        lemma_weight_pos(n, s.last().2 as int);
    }
}

proof fn lemma_wsum_remove(s: Seq<(u64, u64, u64)>, idx: int, n: int)
    requires
        0 <= idx < s.len(),
    ensures
        wsum(s.remove(idx), n) == wsum(s, n) - weight(n, s[idx].2 as int),
    decreases s.len(),
{
    if idx == s.len() - 1 {
        assert(s.remove(idx) =~= s.drop_last());
    } else {
        let t = s.drop_last();
        lemma_wsum_remove(t, idx, n);
        assert(s.remove(idx).drop_last() =~= t.remove(idx));
        assert(s.remove(idx).last() == s.last());
    }
}

/// Appending the closing edge to a full-depth partial path yields a tour,
/// and adds exactly that edge's cost.
proof fn lemma_close_tour(g: Seq<Seq<u64>>, p: Seq<PathEdge>, v: usize, q: Seq<PathEdge>)
    requires
        wf_grid(g),
        p.len() == g.len() - 1,
        v < g.len(),
        p.len() > 0 ==> p[0].0 == 0 && p.last().1 == v,
        p.len() == 0 ==> v == 0,
        forall|k: int| 0 <= k < p.len() - 1 ==> (#[trigger] p[k]).1 == p[k + 1].0,
        forall|k: int|
            0 <= k < p.len() ==> (#[trigger] p[k]).0 < g.len() && p[k].1 < g.len() && p[k].1 != 0
                && fin(g[p[k].0 as int][p[k].1 as int]),
        forall|k1: int, k2: int|
            0 <= k1 < k2 < p.len() ==> (#[trigger] p[k1]).1 != (#[trigger] p[k2]).1,
        fin(g[v as int][0]),
        q == p.push(PathEdge(v, 0)),
    ensures
        valid_tour(g, q),
        path_sum(g, q) == path_sum(g, p) + g[v as int][0],
{
    let n = g.len() as int;
    assert(q.drop_last() =~= p);
    if p.len() == 0 {
        // A 1-vertex grid has no finite closing edge: its diagonal is INF.
        assert(g[0][0] == INF);
        assert(false);
    }
    // Where each edge departs from: vertex 0 first, then the previous
    // edge's destination.
    assert forall|k: int| 1 <= k < n implies (#[trigger] q[k]).0 == p[k - 1].1 by {
        if k < n - 1 {
            assert(q[k] == p[k]);
        } else {
            assert(q[k] == PathEdge(v, 0));
            assert(p.last() == p[k - 1]);
        }
    }
    assert forall|k: int| 0 <= k < n - 1 implies (#[trigger] q[k]).1 == q[k + 1].0 by {
        if k < n - 1 {
            assert(q[k] == p[k]);
        }
    }
    assert forall|k1: int, k2: int|
        0 <= k1 < k2 < n implies (#[trigger] q[k1]).0 != (#[trigger] q[k2]).0 by {
        if k1 == 0 {
            assert(q[0].0 == 0);
            assert(q[k2].0 == p[k2 - 1].1);
            assert(p[k2 - 1].1 != 0);
        } else {
            assert(q[k1].0 == p[k1 - 1].1);
            assert(q[k2].0 == p[k2 - 1].1);
        }
    }
    assert(valid_tour(g, q));
}

/// Ghost mirror of a search node.
ghost struct SNode {
    path: Seq<PathEdge>,
    m: Seq<Seq<u64>>,
    bound: u64,
    path_cost: u64,
    vertex: usize,
    level: usize,
}

/// The node a `Node` stands for.
spec fn abs(nd: Node) -> SNode {
    SNode {
        path: nd.path@,
        m: nd.reduced_matrix@,
        bound: nd.bound,
        path_cost: nd.path_cost,
        vertex: nd.vertex,
        level: nd.level,
    }
}

/// Ghost mirror of the whole search state: the node store and the frontier
/// entries in insertion order.
ghost struct SState {
    arena: Seq<SNode>,
    frontier: Seq<(u64, u64, u64)>,
}

/// The node store a `Vec<Node>` stands for.
spec fn abs_arena(a: Seq<Node>) -> Seq<SNode> {
    a.map_values(|nd: Node| abs(nd))
}

/// The child reached from `p` by committing the edge to `j`.
spec fn child_snode(g: Seq<Seq<u64>>, p: SNode, j: int) -> SNode {
    let mg = masked_grid(p.m, p.level as int + 1, p.vertex as int, j);
    SNode {
        path: p.path.push(PathEdge(p.vertex, j as usize)),
        m: reduced(mg),
        bound: (p.bound + p.m[p.vertex as int][j] + reduction_cost(mg)) as u64,
        path_cost: (p.path_cost + g[p.vertex as int][j]) as u64,
        vertex: j as usize,
        level: (p.level + 1) as usize,
    }
}

/// The root node of the search over `g`.
spec fn root_snode(g: Seq<Seq<u64>>) -> SNode {
    let mg = masked_grid(g, 0, 0, 0);
    SNode {
        path: Seq::empty(),
        m: reduced(mg),
        bound: reduction_cost(mg) as u64,
        path_cost: 0,
        vertex: 0,
        level: 0,
    }
}

/// `x` is in `s` and lexicographically at most every entry of `s`.
spec fn is_lex_min(s: Seq<(u64, u64, u64)>, x: (u64, u64, u64)) -> bool {
    s.contains(x) && forall|k: int| 0 <= k < s.len() ==> entry_le(x, #[trigger] s[k])
}

/// The least entry of `s` in lexicographic order.
spec fn lex_min(s: Seq<(u64, u64, u64)>) -> (u64, u64, u64) {
    choose|x: (u64, u64, u64)| is_lex_min(s, x)
}

/// A position of `x` in `s`.
spec fn index_of_entry(s: Seq<(u64, u64, u64)>, x: (u64, u64, u64)) -> int {
    choose|k: int| 0 <= k < s.len() && s[k] == x
}

/// A non-empty frontier has a least entry.
proof fn lemma_lex_min_exists(s: Seq<(u64, u64, u64)>)
    requires
        s.len() > 0,
    ensures
        is_lex_min(s, lex_min(s)),
    decreases s.len(),
{
    if s.len() == 1 {
        assert(s[0] == s.last());
        assert(s.contains(s[0]));
        assert(is_lex_min(s, s[0]));
    } else {
        lemma_lex_min_exists(s.drop_last());
        let m = lex_min(s.drop_last());
        let w = if entry_le(m, s.last()) {
            m
        } else {
            s.last()
        };
        assert(s.contains(w)) by {
            if entry_le(m, s.last()) {
                let k = choose|k: int| 0 <= k < s.drop_last().len() && s.drop_last()[k] == m;
                assert(s[k] == m);
            } else {
                assert(s[s.len() - 1] == s.last());
            }
        }
        assert forall|k: int| 0 <= k < s.len() implies entry_le(w, #[trigger] s[k]) by {
            if k < s.len() - 1 {
                assert(entry_le(m, s.drop_last()[k]));
            }
        }
        assert(is_lex_min(s, w));
    }
}

/// Any two least entries are the same entry.
proof fn lemma_lex_min_agrees(s: Seq<(u64, u64, u64)>, x: (u64, u64, u64))
    requires
        is_lex_min(s, x),
    ensures
        lex_min(s) == x,
{
    assert(is_lex_min(s, lex_min(s)));
    let y = lex_min(s);
    let kx = choose|k: int| 0 <= k < s.len() && s[k] == x;
    let ky = choose|k: int| 0 <= k < s.len() && s[k] == y;
    assert(entry_le(x, s[ky]) && entry_le(y, s[kx]));
    assert(x.0 == y.0 && x.1 == y.1 && x.2 == y.2);
}

/// No two frontier entries carry the same node id.
spec fn distinct_ids(s: Seq<(u64, u64, u64)>) -> bool {
    forall|k1: int, k2: int| 0 <= k1 < k2 < s.len() ==> (#[trigger] s[k1]).1 != (#[trigger] s[k2]).1
}

/// The state after considering every next vertex from `j` upward: one child
/// per finite entry of the parent's reduced matrix row, appended to the node
/// store and the frontier in vertex order.
spec fn spec_expand(g: Seq<Seq<u64>>, st: SState, p: SNode, lvl: u64, j: int) -> SState
    decreases g.len() - j,
{
    if j < 0 || j >= g.len() {
        st
    } else {
        let st2 = if fin(p.m[p.vertex as int][j]) {
            SState {
                arena: st.arena.push(child_snode(g, p, j)),
                frontier: st.frontier.push(
                    (child_snode(g, p, j).bound, st.arena.len() as u64, (lvl + 1) as u64),
                ),
            }
        } else {
            st
        };
        spec_expand(g, st2, p, lvl, j + 1)
    }
}

/// Expanding pushes at most one entry per remaining vertex, each of the
/// child level's weight.
proof fn lemma_spec_expand_wsum(g: Seq<Seq<u64>>, st: SState, p: SNode, lvl: u64, j: int, n: int)
    requires
        n == g.len(),
        0 <= j <= n,
        lvl as int + 1 <= u64::MAX,
    ensures
        wsum(spec_expand(g, st, p, lvl, j).frontier, n) <= wsum(st.frontier, n) + (n - j) * weight(
            n,
            lvl as int + 1,
        ),
    decreases n - j,
{
    let w = weight(n, lvl as int + 1);
    lemma_weight_pos(n, lvl as int + 1);
    if j < n {
        if fin(p.m[p.vertex as int][j]) {
            let e = (child_snode(g, p, j).bound, st.arena.len() as u64, (lvl + 1) as u64);
            let st2 = SState {
                arena: st.arena.push(child_snode(g, p, j)),
                frontier: st.frontier.push(e),
            };
            assert(st.frontier.push(e).drop_last() =~= st.frontier);
            assert(((lvl + 1) as u64) as int == lvl as int + 1);
            assert(wsum(st2.frontier, n) == wsum(st.frontier, n) + w);
            lemma_spec_expand_wsum(g, st2, p, lvl, j + 1, n);
            assert((n - j) * w == (n - j - 1) * w + w) by (nonlinear_arith);
        } else {
            lemma_spec_expand_wsum(g, st, p, lvl, j + 1, n);
            assert((n - j) * w == (n - j - 1) * w + w) by (nonlinear_arith);
        }
    }
}

/// The whole search as a function of the grid and the state: pop the least
/// frontier entry; at full depth close the tour if the grid allows it and
/// otherwise drop the node; below full depth expand. The result — and so
/// the solver's answer — is a function of the grid alone.
spec fn spec_search(g: Seq<Seq<u64>>, st: SState) -> Option<(u64, Seq<PathEdge>)>
    decreases wsum(st.frontier, g.len() as int)
        via spec_search_decreases
{
    if st.frontier.len() == 0 {
        None
    } else {
        let x = lex_min(st.frontier);
        let idx = index_of_entry(st.frontier, x);
        let st1 = SState { arena: st.arena, frontier: st.frontier.remove(idx) };
        let nd = st.arena[x.1 as int];
        if x.2 as int >= g.len() - 1 || x.2 == u64::MAX {
            if fin(g[nd.vertex as int][0]) {
                Some(
                    (
                        (nd.path_cost + g[nd.vertex as int][0]) as u64,
                        nd.path.push(PathEdge(nd.vertex, 0)),
                    ),
                )
            } else {
                spec_search(g, st1)
            }
        } else {
            spec_search(g, spec_expand(g, st1, nd, x.2, 0))
        }
    }
}

#[via_fn]
proof fn spec_search_decreases(g: Seq<Seq<u64>>, st: SState) {
    let n = g.len() as int;
    if st.frontier.len() > 0 {
        lemma_lex_min_exists(st.frontier);
        let x = lex_min(st.frontier);
        assert(st.frontier.contains(x));
        let idx = index_of_entry(st.frontier, x);
        assert(0 <= idx < st.frontier.len() && st.frontier[idx] == x);
        lemma_wsum_remove(st.frontier, idx, n);
        lemma_weight_pos(n, x.2 as int);
        let st1 = SState { arena: st.arena, frontier: st.frontier.remove(idx) };
        lemma_wsum_nonneg(st1.frontier, n);
        if !(x.2 as int >= n - 1 || x.2 == u64::MAX) {
            let nd = st.arena[x.1 as int];
            lemma_spec_expand_wsum(g, st1, nd, x.2, 0, n);
            lemma_wsum_nonneg(spec_expand(g, st1, nd, x.2, 0).frontier, n);
            assert(weight(n, x.2 as int) == n * weight(n, x.2 as int + 1) + 1);
        }
    }
}

/// What `find` returns on a grid, as a function of the grid alone: running
/// the solver twice on the same matrix yields the same answer — the same
/// cost and, with the frontier's fixed tie-break, the same path.
pub closed spec fn spec_find(g: Seq<Seq<u64>>) -> Option<(u64, Seq<PathEdge>)> {
    let root = root_snode(g);
    spec_search(g, SState { arena: seq![root], frontier: seq![(root.bound, 0u64, 0u64)] })
}

/// Running the solver twice on the same matrix yields identical results:
/// the answer is a function of the matrix alone, so two runs agree on the
/// cost — and, with the frontier's fixed tie-break, on the path as well.
pub proof fn lemma_find_deterministic(
    g: Seq<Seq<u64>>,
    r1: Option<(u64, Seq<PathEdge>)>,
    r2: Option<(u64, Seq<PathEdge>)>,
)
    requires
        r1 == spec_find(g),
        r2 == spec_find(g),
    ensures
        r1 == r2,
{
}

/// Any valid tour leaves every vertex exactly once: its `n` edges depart
/// from `n` pairwise distinct vertices below `n`, so they cover the whole
/// vertex set.
pub proof fn lemma_tour_visits_all(g: Seq<Seq<u64>>, p: Seq<PathEdge>, v: int)
    requires
        valid_tour(g, p),
        0 <= v < g.len(),
    ensures
        exists|k: int| 0 <= k < p.len() && (#[trigger] p[k]).0 == v,
{
    let n = g.len() as int;
    let s = Seq::new(n as nat, |k: int| p[k].0 as int);
    assert(s.no_duplicates()) by {
        assert forall|k1: int, k2: int|
            0 <= k1 < s.len() && 0 <= k2 < s.len() && k1 != k2 implies s[k1] != s[k2] by {
            if k1 < k2 {
                assert(p[k1].0 != p[k2].0);
            } else {
                assert(p[k2].0 != p[k1].0);
            }
        }
    }
    if !(exists|k: int| 0 <= k < p.len() && (#[trigger] p[k]).0 == v) {
        s.unique_seq_to_set();
        let rng = vstd::set_lib::set_int_range(0, n);
        vstd::set_lib::lemma_int_range(0, n);
        let rngv = rng.remove(v);
        assert forall|x: int| s.to_set().contains(x) implies rngv.contains(x) by {
            let k = choose|k: int| 0 <= k < s.len() && s[k] == x;
            assert(p[k].0 < n);
            assert(p[k].0 != v);
        }
        assert(s.to_set().subset_of(rngv));
        assert(rngv.len() == n - 1);
        vstd::set_lib::lemma_len_subset(s.to_set(), rngv);
        assert(false);
    }
}

/// A vertex with no finite outgoing edge, or with no finite incoming edge,
/// rules out every tour: the solver can only answer "no tour" on such a
/// matrix.
#[verifier::rlimit(30)]
pub proof fn lemma_isolated_vertex_no_tour(g: Seq<Seq<u64>>, v: int, p: Seq<PathEdge>)
    requires
        0 <= v < g.len(),
        (forall|j: int| 0 <= j < g.len() ==> !fin(#[trigger] g[v][j])) || (forall|i: int|
            0 <= i < g.len() ==> !fin(#[trigger] g[i][v])),
    ensures
        !valid_tour(g, p),
{
    let n = g.len() as int;
    if valid_tour(g, p) {
        lemma_tour_visits_all(g, p, v);
        let k = choose|k: int| 0 <= k < p.len() && (#[trigger] p[k]).0 == v;
        if forall|j: int| 0 <= j < g.len() ==> !fin(#[trigger] g[v][j]) {
            assert(fin(g[p[k].0 as int][p[k].1 as int]));
            assert(false);
        } else {
            // The edge arriving at `v` is the one before the edge leaving it
            // (or the closing edge, when `v` is the origin).
            if k >= 1 {
                assert(p[k - 1].1 == p[k].0);
                assert(fin(g[p[k - 1].0 as int][p[k - 1].1 as int]));
            } else {
                assert(p[0].0 == 0 && v == 0);
                assert(p[n - 1].1 == 0);
                assert(fin(g[p[n - 1].0 as int][p[n - 1].1 as int]));
            }
            assert(false);
        }
    }
}

/// An owned copy of an edge list.
fn clone_edges(v: &Vec<PathEdge>) -> (r: Vec<PathEdge>)
    ensures
        r@ == v@,
{
    let mut r: Vec<PathEdge> = Vec::new();
    let mut k: usize = 0;
    while k < v.len()
        invariant
            k <= v@.len(),
            r@ == v@.take(k as int),
        decreases v@.len() - k,
    {
        r.push(v[k]);
        proof {
            assert(r@ =~= v@.take(k as int + 1));
        }
        k += 1;
    }
    proof {
        assert(r@ =~= v@);
    }
    r
}

/// Solve the traveling-salesman problem for the given cost matrix: find a
/// closed tour from vertex 0 through every vertex exactly once and back,
/// by best-first branch and bound. Any tour returned is valid and its cost
/// is exactly the sum of the matrix entries along its edges; `None` means
/// the search exhausted the frontier without completing a tour.
#[verifier::loop_isolation(false)]
#[verifier::rlimit(60)]
pub fn find(cost: &CostMatrix) -> (r: Option<FindResult>)
    requires
        cost.inv(),
        cost.wf(),
    ensures
        r matches Some(res) ==> valid_tour(cost@, res.spec_path()) && res.spec_cost() as int
            == path_sum(cost@, res.spec_path()),
        r is Some <==> spec_find(cost@) is Some,
        r matches Some(res) ==> spec_find(cost@) == Some((res.spec_cost(), res.spec_path())),
{
    let ghost g = cost@;
    let n = cost.dim();
    let mut queue = heap_new();
    let mut arena: Vec<Node> = Vec::new();
    let ghost mut gs: Seq<(u64, u64, u64)> = Seq::empty();

    let root = Node::new(cost.duplicate(), 0, 0, 0, Vec::new(), 0, 0, Ghost(g));
    let rb = root.bound;
    proof {
        assert(root.path@ =~= Seq::<PathEdge>::empty());
        assert(abs(root) == root_snode(g));
    }
    arena.push(root);
    heap_push(&mut queue, (rb, 0u64, 0u64));
    proof {
        gs.to_multiset_ensures();
        assert(gs.to_multiset() =~= Multiset::<(u64, u64, u64)>::empty());
        gs = gs.push((rb, 0u64, 0u64));
        assert(abs_arena(arena@) =~= seq![root_snode(g)]);
        assert(gs =~= seq![(root_snode(g).bound, 0u64, 0u64)]);
        assert(SState { arena: abs_arena(arena@), frontier: gs } == SState {
            arena: seq![root_snode(g)],
            frontier: seq![(root_snode(g).bound, 0u64, 0u64)],
        });
    }

    loop
        invariant
            forall|t: int| 0 <= t < arena@.len() ==> node_wf(#[trigger] arena@[t], g),
            forall|k: int|
                0 <= k < gs.len() ==> ({
                    let x = #[trigger] gs[k];
                    &&& x.1 < arena@.len()
                    &&& arena@[x.1 as int].bound == x.0
                    &&& arena@[x.1 as int].level == x.2
                }),
            distinct_ids(gs),
            gs.to_multiset() == heap_elems(queue),
            spec_search(g, SState { arena: abs_arena(arena@), frontier: gs }) == spec_find(g),
        decreases wsum(gs, n as int),
    {
        let ghost gs_entry = gs;
        let ghost st_pop = SState { arena: abs_arena(arena@), frontier: gs };
        let popped = heap_pop_min(&mut queue);
        match popped {
            None => {
                proof {
                    gs.to_multiset_ensures();
                    assert(gs.len() == 0);
                    assert(spec_search(g, st_pop) is None);
                }
                return None;
            },
            Some(x) => {
                proof {
                    gs.to_multiset_ensures();
                    assert(gs.to_multiset().count(x) > 0);
                    assert(gs.contains(x));
                    // The heap handed out the model's unique least entry.
                    assert forall|k: int| 0 <= k < gs.len() implies entry_le(
                        x,
                        #[trigger] gs[k],
                    ) by {
                        assert(gs.contains(gs[k]));
                        assert(gs.to_multiset().count(gs[k]) > 0);
                    }
                    assert(is_lex_min(gs, x));
                    lemma_lex_min_agrees(gs, x);
                    let idx = index_of_entry(gs, x);
                    assert(0 <= idx < gs.len() && gs[idx] == x);
                    assert(x.1 < arena@.len() && arena@[x.1 as int].bound == x.0
                        && arena@[x.1 as int].level == x.2);
                    lemma_wsum_remove(gs, idx, n as int);
                    lemma_weight_pos(n as int, x.2 as int);
                    lemma_wsum_nonneg(gs.remove(idx), n as int);
                    // Ids stay distinct after the removal.
                    assert forall|k1: int, k2: int|
                        0 <= k1 < k2 < gs.remove(idx).len() implies (#[trigger] gs.remove(
                        idx,
                    )[k1]).1 != (#[trigger] gs.remove(idx)[k2]).1 by {
                        assert(gs.remove(idx)[k1] == if k1 < idx {
                            gs[k1]
                        } else {
                            gs[k1 + 1]
                        });
                        assert(gs.remove(idx)[k2] == if k2 < idx {
                            gs[k2]
                        } else {
                            gs[k2 + 1]
                        });
                    }
                    gs = gs.remove(idx);
                }
                let ghost st1g = SState { arena: abs_arena(arena@), frontier: gs };
                let alen = arena.len();
                proof {
                    assert((x.1 as int) < (alen as int));
                }
                let id = x.1 as usize;
                let vertex = arena[id].vertex;
                let level = arena[id].level;
                let bound_v = arena[id].bound;
                let pcost = arena[id].path_cost;
                let pmat = arena[id].reduced_matrix.duplicate();
                let ppath = clone_edges(&arena[id].path);
                let ghost nd = arena@[id as int];
                let ghost snd = abs(nd);
                proof {
                    assert(node_wf(nd, g));
                    assert(x.2 == level);
                    assert(st_pop.arena[x.1 as int] == snd);
                    assert(x.2 != u64::MAX);
                    assert(wsum(gs, n as int) == wsum(gs_entry, n as int) - weight(
                        n as int,
                        level as int,
                    ));
                }

                if level == n - 1 {
                    // Full depth: close the tour if the matrix allows it,
                    // else drop this node and search on.
                    let back = cost.get(vertex, 0);
                    if back != INF {
                        let mut tour = ppath;
                        tour.push(PathEdge(vertex, 0));
                        proof {
                            lemma_path_sum_bound(g, nd.path@);
                            lemma_close_tour(g, nd.path@, vertex, tour@);
                        }
                        let total = pcost + back;
                        proof {
                            assert(x.2 as int >= g.len() - 1);
                            assert(total == (snd.path_cost + g[snd.vertex as int][0]) as u64);
                            assert(tour@ == snd.path.push(PathEdge(snd.vertex, 0)));
                            assert(spec_search(g, st_pop) == Some(
                                (
                                    (snd.path_cost + g[snd.vertex as int][0]) as u64,
                                    snd.path.push(PathEdge(snd.vertex, 0)),
                                ),
                            ));
                        }
                        return Some(FindResult { cost: total, path: tour });
                    }
                    proof {
                        // The model drops this node too.
                        assert(x.2 as int >= g.len() - 1);
                        assert(!fin(g[snd.vertex as int][0]));
                        assert(spec_search(g, st_pop) == spec_search(g, st1g));
                    }
                } else {
                    // Expand: one child per reachable next vertex.
                    let ghost w0 = wsum(gs, n as int);
                    let ghost wc = weight(n as int, level as int + 1);
                    proof {
                        lemma_weight_pos(n as int, level as int + 1);
                    }
                    let mut j: usize = 0;
                    while j < n
                        invariant
                            j <= n,
                            forall|t: int|
                                0 <= t < arena@.len() ==> node_wf(#[trigger] arena@[t], g),
                            forall|k: int|
                                0 <= k < gs.len() ==> ({
                                    let x = #[trigger] gs[k];
                                    &&& x.1 < arena@.len()
                                    &&& arena@[x.1 as int].bound == x.0
                                    &&& arena@[x.1 as int].level == x.2
                                }),
                            distinct_ids(gs),
                            gs.to_multiset() == heap_elems(queue),
                            wsum(gs, n as int) <= w0 + j * wc,
                            spec_expand(
                                g,
                                SState { arena: abs_arena(arena@), frontier: gs },
                                snd,
                                x.2,
                                j as int,
                            ) == spec_expand(g, st1g, snd, x.2, 0),
                        decreases n - j,
                    {
                        let ghost arena_prev = arena@;
                        let ghost gs_prev = gs;
                        let cval = pmat.get(vertex, j);
                        if cval != INF {
                            proof {
                                assert(fin(g[vertex as int][j as int]));
                                assert(g[vertex as int][j as int] <= MAX_ENTRY);
                                assert(cval <= MAX_ENTRY);
                                assert(bound_v as int <= (level + 1) * (2 * n + 1) * MAX_ENTRY);
                                assert((level + 1) * (2 * n + 1) * MAX_ENTRY + MAX_ENTRY
                                    < u64::MAX) by (nonlinear_arith)
                                    requires
                                        0 <= level < n,
                                        1 <= n <= MAX_DIM,
                                ;
                            }
                            let cbase = bound_v + cval;
                            let ge = cost.get(vertex, j);
                            proof {
                                lemma_path_sum_bound(g, nd.path@);
                                assert(pcost as int <= level * MAX_ENTRY);
                                assert(level * MAX_ENTRY + MAX_ENTRY <= 1024 * MAX_ENTRY)
                                    by (nonlinear_arith)
                                    requires
                                        0 <= level < n,
                                        1 <= n <= MAX_DIM,
                                ;
                            }
                            let cpc = pcost + ge;
                            let cmat = pmat.duplicate();
                            let cpath = clone_edges(&ppath);
                            let child = Node::new(
                                cmat,
                                level + 1,
                                vertex,
                                j,
                                cpath,
                                cbase,
                                cpc,
                                Ghost(g),
                            );
                            proof {
                                // The freshly built node is the model's child.
                                assert(child.reduced_matrix@ == reduced(
                                    masked_grid(snd.m, snd.level as int + 1, snd.vertex as int, j as int),
                                ));
                                assert(child.bound as int == snd.bound + snd.m[snd.vertex as int][j as int]
                                    + reduction_cost(
                                    masked_grid(snd.m, snd.level as int + 1, snd.vertex as int, j as int),
                                ));
                                assert(child.path_cost as int == snd.path_cost + g[snd.vertex as int][j as int]);
                                assert(child.path@ == snd.path.push(PathEdge(snd.vertex, j)));
                                assert(abs(child) == child_snode(g, snd, j as int));
                            }
                            let ghost childg = abs(child);
                            let cid = arena.len();
                            let cb = child.bound;
                            let cl = child.level as u64;
                            arena.push(child);
                            heap_push(&mut queue, (cb, cid as u64, cl));
                            proof {
                                let ghost e = (cb, cid as u64, cl);
                                gs.to_multiset_ensures();
                                assert(gs.push(e).drop_last() =~= gs);
                                assert(wsum(gs.push(e), n as int) == wsum(gs, n as int) + wc);
                                assert(wsum(gs, n as int) + wc <= w0 + (j + 1) * wc)
                                    by (nonlinear_arith)
                                    requires
                                        wsum(gs, n as int) <= w0 + j * wc,
                                        j >= 0,
                                ;
                                gs = gs.push(e);
                                // Ids stay distinct: the new id tops them all.
                                assert forall|k1: int, k2: int|
                                    0 <= k1 < k2 < gs.len() implies (#[trigger] gs[k1]).1 != (
                                #[trigger] gs[k2]).1 by {
                                    if k2 == gs.len() - 1 {
                                        assert(gs[k1] == gs_prev[k1]);
                                        assert((gs_prev[k1].1 as int) < (cid as int));
                                    } else {
                                        assert(gs[k1] == gs_prev[k1] && gs[k2] == gs_prev[k2]);
                                    }
                                }
                                // The exec push is the model's push.
                                assert(abs_arena(arena@) =~= abs_arena(arena_prev).push(childg));
                                assert(e == (childg.bound, abs_arena(arena_prev).len() as u64, (x.2 + 1) as u64));
                                assert(SState { arena: abs_arena(arena@), frontier: gs } == SState {
                                    arena: abs_arena(arena_prev).push(child_snode(g, snd, j as int)),
                                    frontier: gs_prev.push(
                                        (
                                            child_snode(g, snd, j as int).bound,
                                            abs_arena(arena_prev).len() as u64,
                                            (x.2 + 1) as u64,
                                        ),
                                    ),
                                });
                                assert(spec_expand(
                                    g,
                                    SState { arena: abs_arena(arena_prev), frontier: gs_prev },
                                    snd,
                                    x.2,
                                    j as int,
                                ) == spec_expand(
                                    g,
                                    SState { arena: abs_arena(arena@), frontier: gs },
                                    snd,
                                    x.2,
                                    j as int + 1,
                                ));
                            }
                        } else {
                            proof {
                                assert(w0 + j as int * wc <= w0 + (j as int + 1) * wc)
                                    by (nonlinear_arith)
                                    requires
                                        wc >= 1,
                                        j as int >= 0,
                                ;
                                assert(!fin(snd.m[snd.vertex as int][j as int]));
                                assert(spec_expand(
                                    g,
                                    SState { arena: abs_arena(arena@), frontier: gs },
                                    snd,
                                    x.2,
                                    j as int,
                                ) == spec_expand(
                                    g,
                                    SState { arena: abs_arena(arena@), frontier: gs },
                                    snd,
                                    x.2,
                                    j as int + 1,
                                ));
                            }
                        }
                        j += 1;
                    }
                    proof {
                        // The popped weight covers everything just pushed,
                        // and one more.
                        assert(weight(n as int, level as int) == n * wc + 1);
                        assert(w0 + n * wc == wsum(gs_entry, n as int) - 1) by (nonlinear_arith)
                            requires
                                w0 == wsum(gs_entry, n as int) - weight(n as int, level as int),
                                weight(n as int, level as int) == n * wc + 1,
                        ;
                        assert(j as int * wc <= n as int * wc) by (nonlinear_arith)
                            requires
                                j as int == n as int,
                                wc >= 1,
                        ;
                        lemma_wsum_nonneg(gs, n as int);
                        // The loop walked the model's whole expansion.
                        let cur = SState { arena: abs_arena(arena@), frontier: gs };
                        assert(spec_expand(g, cur, snd, x.2, n as int) == cur);
                        assert(spec_expand(g, st1g, snd, x.2, 0) == cur);
                        assert(!(x.2 as int >= g.len() - 1));
                        assert(spec_search(g, st_pop) == spec_search(
                            g,
                            spec_expand(g, st1g, snd, x.2, 0),
                        ));
                    }
                }
            },
        }
    }
}

} // verus!
