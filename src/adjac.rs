//! The adjacency matrix: a square bit matrix over the node indices of a
//! multigraph, with the starting-node scan, the decomposition into traversals
//! rooted at starting nodes, and the cycle check.
//!
//! Parallel edges between one ordered pair of nodes collapse into one bit: the
//! matrix does not keep how many edges the storage held between two nodes.
use crate::dotutils::{dot_text, render_plain};
use crate::bits::{bit_len, bits_of, bitset_clone, bitset_contains, bitset_insert, bitset_with_capacity};
use crate::storage::{graph_edge_pairs, graph_edges, graph_node_count, graph_node_weights, graph_nodes};
use fixedbitset::FixedBitSet;
use petgraph::graph::Graph;
use vstd::prelude::*;

verus! {

/// One traversal of the decomposition, over node indices.
#[derive(Debug, Clone, PartialEq, Eq)]
pub enum MyDAG {
    /// The edges recorded by a depth-first walk from a starting node, in order.
    Path(Vec<(usize, usize)>),
    /// A starting node with no outgoing edge.
    Single(usize),
}

/// One traversal of the decomposition, over node labels.
#[derive(Debug, Clone, PartialEq, Eq)]
pub enum HuDAG<T> {
    Path(Vec<(T, T)>),
    Single(T),
}

/// What a traversal holds.
pub enum DagView {
    Path(Seq<(usize, usize)>),
    Single(usize),
}

pub open spec fn dag_view(d: MyDAG) -> DagView {
    match d {
        MyDAG::Path(p) => DagView::Path(p@),
        MyDAG::Single(a) => DagView::Single(a),
    }
}

/// The adjacency matrix of a multigraph, with a copy of its node labels.
pub struct Adjac {
    bitset: FixedBitSet,
    rn: Vec<String>,
    size: usize,
}

/// What a matrix stands for: its size, the bit positions that are set, and the
/// node labels by index. Bit `i * size + j` stands for the edge `i -> j`.
pub struct AdjacView {
    pub size: nat,
    pub bits: Set<nat>,
    pub labels: Seq<Seq<char>>,
}

/// The bit position of the edge `i -> j` in a matrix of size `n`.
pub open spec fn cell(i: int, j: int, n: int) -> nat {
    (i * n + j) as nat
}

impl AdjacView {
    pub open spec fn edge(self, i: int, j: int) -> bool {
        &&& 0 <= i < self.size
        &&& 0 <= j < self.size
        &&& self.bits.contains(cell(i, j, self.size as int))
    }

    /// No edge comes into `y`.
    pub open spec fn is_start(self, y: int) -> bool {
        &&& 0 <= y < self.size
        &&& forall|x: int| 0 <= x < self.size ==> !#[trigger] self.edge(x, y)
    }

    /// The starting nodes below `n`, in ascending order.
    pub open spec fn starts_below(self, n: int) -> Seq<usize>
        decreases n,
    {
        if n <= 0 {
            Seq::empty()
        } else if self.is_start(n - 1) {
            self.starts_below(n - 1).push((n - 1) as usize)
        } else {
            self.starts_below(n - 1)
        }
    }

    pub open spec fn starts(self) -> Seq<usize> {
        self.starts_below(self.size as int)
    }

    /// `p` is a nonempty sequence of nodes, each joined to the next by an edge.
    pub open spec fn is_walk(self, p: Seq<int>) -> bool {
        &&& p.len() > 0
        &&& forall|k: int| 0 <= k < p.len() - 1 ==> #[trigger] self.edge(p[k], p[k + 1])
    }

    pub open spec fn reaches(self, a: int, b: int) -> bool {
        exists|p: Seq<int>| #[trigger] self.is_walk(p) && p[0] == a && p.last() == b
    }

    /// Some edge comes back to `i` from a node that `i` reaches.
    pub open spec fn on_cycle(self, i: int) -> bool {
        exists|j: int| #[trigger] self.edge(j, i) && self.reaches(i, j)
    }

    /// `d` is the traversal from `root`: a `Path` of every edge whose source
    /// `root` reaches, opening with an edge out of `root`, or `Single(root)`
    /// where no edge leaves `root`.
    pub open spec fn is_traversal(self, root: int, d: MyDAG) -> bool {
        match d {
            MyDAG::Single(a) => a == root && forall|j: int| !#[trigger] self.edge(root, j),
            MyDAG::Path(p) => {
                &&& p@.len() > 0
                &&& p@[0].0 == root
                &&& forall|a: usize, b: usize|
                    #[trigger] p@.contains((a, b)) <==> self.edge(a as int, b as int)
                        && self.reaches(root, a as int)
            },
        }
    }

    /// Every index that `d` holds is a node of the matrix.
    pub open spec fn in_range(self, d: MyDAG) -> bool {
        match d {
            MyDAG::Path(p) => forall|k: int|
                0 <= k < p@.len() ==> (#[trigger] p@[k]).0 < self.size && p@[k].1 < self.size,
            MyDAG::Single(a) => a < self.size,
        }
    }

    /// `h` is `d` with each index replaced by its node's label.
    pub open spec fn human_of(self, d: MyDAG, h: HuDAG<String>) -> bool {
        match (d, h) {
            (MyDAG::Path(p), HuDAG::Path(q)) => {
                &&& q@.len() == p@.len()
                &&& forall|k: int|
                    0 <= k < p@.len() ==> (#[trigger] q@[k]).0@ == self.labels[p@[k].0 as int]
                        && q@[k].1@ == self.labels[p@[k].1 as int]
            },
            (MyDAG::Single(a), HuDAG::Single(b)) => b@ == self.labels[a as int],
            _ => false,
        }
    }

    /// `h` is, over labels, the traversal from `root`.
    pub open spec fn is_hu_traversal(self, root: int, h: HuDAG<String>) -> bool {
        exists|d: MyDAG|
            #[trigger] self.is_traversal(root, d) && dag_view(d) == self.traversal_view(root)
                && self.human_of(d, h)
    }

    /// `hs` is, over labels, the decomposition: one traversal per starting
    /// node, in order.
    pub open spec fn is_hu_decomposition(self, hs: Seq<HuDAG<String>>) -> bool {
        &&& hs.len() == self.starts().len()
        &&& forall|k: int|
            0 <= k < hs.len() ==> self.is_hu_traversal(self.starts()[k] as int, #[trigger] hs[k])
    }

    /// `d` records an edge into or out of `idx`, or is the single node `node`
    /// (compared by label).
    pub open spec fn includes(self, d: MyDAG, idx: int, node: Seq<char>) -> bool {
        match d {
            MyDAG::Path(p) => exists|k: int|
                0 <= k < p@.len() && ((#[trigger] p@[k]).0 == idx || p@[k].1 == idx),
            MyDAG::Single(a) => self.labels[a as int] == node,
        }
    }

    /// The positions in `ds` of the traversals that include `node`.
    pub open spec fn including(self, ds: Seq<MyDAG>, idx: int, node: Seq<char>) -> Seq<int>
        decreases ds.len(),
    {
        if ds.len() == 0 {
            Seq::empty()
        } else if self.includes(ds.last(), idx, node) {
            self.including(ds.drop_last(), idx, node).push(ds.len() - 1)
        } else {
            self.including(ds.drop_last(), idx, node)
        }
    }

    /// `row` is `d` over labels, each edge as (source, Some(target)), a single
    /// node as (node, None).
    pub open spec fn row_of(self, d: MyDAG, row: Seq<(String, Option<String>)>) -> bool {
        match d {
            MyDAG::Path(p) => {
                &&& row.len() == p@.len()
                &&& forall|k: int|
                    0 <= k < p@.len() ==> (#[trigger] row[k]).0@ == self.labels[p@[k].0 as int]
                        && row[k].1 is Some && row[k].1->Some_0@ == self.labels[p@[k].1 as int]
            },
            MyDAG::Single(a) => {
                &&& row.len() == 1
                &&& row[0].0@ == self.labels[a as int]
                &&& row[0].1 is None
            },
        }
    }

    /// The first index whose label is `n`.
    pub open spec fn position(self, n: Seq<char>) -> int {
        choose|k: int|
            0 <= k < self.labels.len() && self.labels[k] == n && forall|j: int|
                0 <= j < k ==> #[trigger] self.labels[j] != n
    }

    /// The edges that the depth-first walk records from `node`, and the visited
    /// flags after it: `node` is marked, then `scan` runs over its successors.
    pub open spec fn visit(self, node: int, vis: Seq<bool>) -> (Seq<(usize, usize)>, Seq<bool>)
        decreases unvisited(vis), 0int, 0int,
    {
        let v1 = vis.update(node, true);
        if 0 <= node < vis.len() && !vis[node] && unvisited(v1) < unvisited(vis) {
            self.scan(node, 0, v1)
        } else {
            (Seq::empty(), vis)
        }
    }

    /// The walk over the candidates `i`, `i + 1`, ... of `node`: each edge
    /// `node -> i` is recorded, and `i` is then walked from unless visited.
    pub open spec fn scan(self, node: int, i: int, vis: Seq<bool>) -> (
        Seq<(usize, usize)>,
        Seq<bool>,
    )
        decreases unvisited(vis), 1int, self.size - i,
    {
        if i < 0 || i >= self.size || vis.len() != self.size {
            (Seq::empty(), vis)
        } else if self.edge(node, i) {
            if !vis[i] {
                let r1 = self.visit(i, vis);
                if unvisited(r1.1) <= unvisited(vis) {
                    let r2 = self.scan(node, i + 1, r1.1);
                    (seq![(node as usize, i as usize)] + r1.0 + r2.0, r2.1)
                } else {
                    (Seq::empty(), vis)
                }
            } else {
                let r2 = self.scan(node, i + 1, vis);
                (seq![(node as usize, i as usize)] + r2.0, r2.1)
            }
        } else {
            self.scan(node, i + 1, vis)
        }
    }

    /// The edges recorded by the walk from `root` with nothing visited yet.
    pub open spec fn walk_of(self, root: int) -> Seq<(usize, usize)> {
        self.visit(root, Seq::new(self.size, |k: int| false)).0
    }

    /// The traversal from `root`, exactly.
    pub open spec fn traversal_view(self, root: int) -> DagView {
        if self.walk_of(root).len() > 0 {
            DagView::Path(self.walk_of(root))
        } else {
            DagView::Single(root as usize)
        }
    }

    /// `c` reaches `u` and no node of smaller index does.
    pub open spec fn first_reached_by(self, c: int, u: int) -> bool {
        self.reaches(c, u) && forall|k: int| 0 <= k < c ==> !#[trigger] self.reaches(k, u)
    }

    /// The touch points of the search from `c`: the nodes that `c` reaches
    /// first, among all nodes, and that have an edge back into `c`.
    pub open spec fn touch_points(self, c: int) -> Set<int> {
        Set::new(|u: int| 0 <= u < self.size && self.first_reached_by(c, u) && self.edge(u, c))
    }

    /// The cycle report from node `i` on: (node, number of touch points) for
    /// each node, in ascending order, that has any.
    pub open spec fn touch_report_from(self, i: int) -> Seq<(int, nat)>
        decreases self.size - i,
    {
        if i < 0 || i >= self.size {
            Seq::empty()
        } else if self.touch_points(i).len() > 0 {
            seq![(i, self.touch_points(i).len())] + self.touch_report_from(i + 1)
        } else {
            self.touch_report_from(i + 1)
        }
    }

    /// The cycle report.
    pub open spec fn touch_report(self) -> Seq<(int, nat)> {
        self.touch_report_from(0)
    }

    /// A walk leads from `a` to `b` through nodes none of which is in `vis`.
    pub open spec fn reaches_avoiding(self, vis: Set<nat>, a: int, b: int) -> bool {
        exists|p: Seq<int>|
            #[trigger] self.is_walk(p) && p[0] == a && p.last() == b && forall|t: int|
                0 <= t < p.len() ==> !vis.contains((#[trigger] p[t]) as nat)
    }

    pub open spec fn is_acyclic(self) -> bool {
        forall|i: int| !#[trigger] self.on_cycle(i)
    }
}

impl View for Adjac {
    type V = AdjacView;

    closed spec fn view(&self) -> AdjacView {
        AdjacView {
            size: self.size as nat,
            bits: bits_of(self.bitset),
            labels: self.rn@.map_values(|s: String| s@),
        }
    }
}

proof fn lemma_cell_bound(i: int, j: int, n: int)
    requires
        0 <= i < n,
        0 <= j < n,
    ensures
        0 <= i * n + j < n * n,
{
    assert(i * n + j < n * n) by (nonlinear_arith)
        requires
            0 <= i < n,
            0 <= j < n,
    ;
    assert(0 <= i * n) by (nonlinear_arith)
        requires
            0 <= i,
            0 <= n,
    ;
}

proof fn lemma_cell_unique(i: int, j: int, a: int, b: int, n: int)
    requires
        0 <= i < n,
        0 <= j < n,
        0 <= a < n,
        0 <= b < n,
        i * n + j == a * n + b,
    ensures
        i == a,
        j == b,
{
    assert(i == a) by (nonlinear_arith)
        requires
            0 <= j < n,
            0 <= b < n,
            i * n + j == a * n + b,
    ;
}

/// The number of nodes not yet visited.
pub open spec fn unvisited(v: Seq<bool>) -> nat
    decreases v.len(),
{
    if v.len() == 0 {
        0
    } else {
        unvisited(v.drop_last()) + if v.last() {
            0nat
        } else {
            1nat
        }
    }
}

/// `u` was visited between the states `before` and `after`.
pub open spec fn fresh(before: Seq<bool>, after: Seq<bool>, u: int) -> bool {
    0 <= u < after.len() && !before[u] && after[u]
}

proof fn lemma_unvisited_shrinks(a: Seq<bool>, b: Seq<bool>)
    requires
        a.len() == b.len(),
        forall|i: int| 0 <= i < a.len() && a[i] ==> b[i],
    ensures
        unvisited(b) <= unvisited(a),
        (exists|k: int| 0 <= k < a.len() && !a[k] && b[k]) ==> unvisited(b) < unvisited(a),
    decreases a.len(),
{
    if a.len() > 0 {
        lemma_unvisited_shrinks(a.drop_last(), b.drop_last());
        if exists|k: int| 0 <= k < a.len() && !a[k] && b[k] {
            let k = choose|k: int| 0 <= k < a.len() && !a[k] && b[k];
            if k < a.len() - 1 {
                assert(!a.drop_last()[k] && b.drop_last()[k]);
            }
        }
    }
}

proof fn lemma_walk_single(m: AdjacView, a: int)
    ensures
        m.reaches(a, a),
{
    let p = seq![a];
    assert(m.is_walk(p));
}

proof fn lemma_reach_prepend(m: AdjacView, a: int, b: int, c: int)
    requires
        m.edge(a, b),
        m.reaches(b, c),
    ensures
        m.reaches(a, c),
{
    let p = choose|p: Seq<int>| #[trigger] m.is_walk(p) && p[0] == b && p.last() == c;
    let q = seq![a] + p;
    assert forall|k: int| 0 <= k < q.len() - 1 implies #[trigger] m.edge(q[k], q[k + 1]) by {
        if k > 0 {
            assert(q[k] == p[k - 1] && q[k + 1] == p[k]);
            assert(m.edge(p[k - 1], p[k - 1 + 1]));
        }
    }
    assert(m.is_walk(q) && q[0] == a && q.last() == c);
}

proof fn lemma_reach_append(m: AdjacView, a: int, b: int, c: int)
    requires
        m.reaches(a, b),
        m.edge(b, c),
    ensures
        m.reaches(a, c),
{
    let p = choose|p: Seq<int>| #[trigger] m.is_walk(p) && p[0] == a && p.last() == b;
    let q = p.push(c);
    assert forall|k: int| 0 <= k < q.len() - 1 implies #[trigger] m.edge(q[k], q[k + 1]) by {
        if k < p.len() - 1 {
            assert(q[k] == p[k] && q[k + 1] == p[k + 1]);
        }
    }
    assert(m.is_walk(q) && q[0] == a && q.last() == c);
}

/// A set of nodes that holds `a` and every successor of its members holds all
/// that `a` reaches.
proof fn lemma_closed_holds_reach(m: AdjacView, vis: Seq<bool>, a: int, p: Seq<int>)
    requires
        vis.len() == m.size,
        0 <= a < m.size,
        vis[a],
        forall|u: int, v: int| 0 <= u < m.size && vis[u] && #[trigger] m.edge(u, v) ==> vis[v],
        m.is_walk(p),
        p[0] == a,
    ensures
        vis[p.last()],
    decreases p.len(),
{
    if p.len() > 1 {
        let q = p.drop_last();
        assert forall|k: int| 0 <= k < q.len() - 1 implies #[trigger] m.edge(q[k], q[k + 1]) by {
            assert(m.edge(p[k], p[k + 1]));
        }
        lemma_closed_holds_reach(m, vis, a, q);
        assert(m.edge(p[p.len() - 2], p[p.len() - 2 + 1]));
    }
}

/// `d` records an edge into or out of `node`, or is the single node `node`.
pub open spec fn mentions(d: MyDAG, node: usize) -> bool {
    match d {
        MyDAG::Path(p) => exists|k: int|
            0 <= k < p@.len() && ((#[trigger] p@[k]).0 == node || p@[k].1 == node),
        MyDAG::Single(a) => a == node,
    }
}

/// The traversals of `ds` that mention `node`, in order.
pub open spec fn mentioning(ds: Seq<MyDAG>, node: usize) -> Seq<MyDAG>
    decreases ds.len(),
{
    if ds.len() == 0 {
        Seq::empty()
    } else if mentions(ds.last(), node) {
        mentioning(ds.drop_last(), node).push(ds.last())
    } else {
        mentioning(ds.drop_last(), node)
    }
}

/// `p` holds a pair with `node` at either end.
pub open spec fn pairs_mention(p: Seq<(String, String)>, node: Seq<char>) -> bool {
    exists|k: int| 0 <= k < p.len() && ((#[trigger] p[k]).0@ == node || p[k].1@ == node)
}

/// The paths of `ds` that have a pair with `node` at either end, in order.
pub open spec fn paths_mentioning(ds: Seq<Vec<(String, String)>>, node: Seq<char>) -> Seq<
    Vec<(String, String)>,
>
    decreases ds.len(),
{
    if ds.len() == 0 {
        Seq::empty()
    } else if pairs_mention(ds.last()@, node) {
        paths_mentioning(ds.drop_last(), node).push(ds.last())
    } else {
        paths_mentioning(ds.drop_last(), node)
    }
}

/// The starting node a traversal is rooted at.
pub open spec fn root_of(d: MyDAG) -> int {
    match d {
        MyDAG::Path(p) => p@[0].0 as int,
        MyDAG::Single(a) => a as int,
    }
}

/// The starting nodes are exactly the nodes with no incoming edge, listed once
/// each in ascending order.
pub proof fn lemma_starts_exact(m: AdjacView)
    requires
        m.size <= usize::MAX,
    ensures
        forall|y: int| 0 <= y < m.size ==> (m.is_start(y) <==> m.starts().contains(y as usize)),
        forall|a: int, b: int|
            0 <= a < b < m.starts().len() ==> m.starts()[a] < m.starts()[b],
{
    lemma_starts_below_exact(m, m.size as int);
}

proof fn lemma_starts_below_exact(m: AdjacView, n: int)
    requires
        n <= m.size <= usize::MAX,
    ensures
        forall|y: int| 0 <= y < n ==> (m.is_start(y) <==> m.starts_below(n).contains(y as usize)),
        forall|k: int|
            0 <= k < m.starts_below(n).len() ==> #[trigger] m.starts_below(n)[k] < n && m.is_start(
                m.starts_below(n)[k] as int,
            ),
        forall|a: int, b: int|
            0 <= a < b < m.starts_below(n).len() ==> m.starts_below(n)[a] < m.starts_below(n)[b],
    decreases n,
{
    if n > 0 {
        lemma_starts_below_exact(m, n - 1);
        let s = m.starts_below(n - 1);
        if m.is_start(n - 1) {
            let t = s.push((n - 1) as usize);
            assert(m.starts_below(n) == t);
            assert(t[s.len() as int] == (n - 1) as usize);
            assert forall|k: int| 0 <= k < s.len() implies t[k] == s[k] by {}
            assert forall|y: int| 0 <= y < n implies (m.is_start(y) <==> t.contains(y as usize)) by {
                if y < n - 1 {
                    if t.contains(y as usize) {
                        let k = choose|k: int| 0 <= k < t.len() && t[k] == y as usize;
                        if k < s.len() {
                            assert(s.contains(y as usize));
                        }
                    }
                    if s.contains(y as usize) {
                        let k = choose|k: int| 0 <= k < s.len() && s[k] == y as usize;
                        assert(t[k] == y as usize);
                    }
                }
            }
        } else {
            assert forall|y: int| 0 <= y < n implies (m.is_start(y) <==> s.contains(y as usize)) by {
                if y == n - 1 && s.contains(y as usize) {
                    let k = choose|k: int| 0 <= k < s.len() && s[k] == y as usize;
                }
            }
        }
    }
}

/// The decomposition has one traversal for each node with no incoming edge,
/// rooted at it, and no traversal rooted anywhere else.
pub proof fn lemma_decomposition_roots(m: AdjacView, ds: Seq<MyDAG>)
    requires
        m.size <= usize::MAX,
        ds.len() == m.starts().len(),
        forall|k: int| 0 <= k < ds.len() ==> m.is_traversal(m.starts()[k] as int, #[trigger] ds[k]),
    ensures
        forall|y: int|
            0 <= y < m.size && m.is_start(y) ==> exists|k: int|
                0 <= k < ds.len() && #[trigger] root_of(ds[k]) == y,
        forall|k: int| 0 <= k < ds.len() ==> m.is_start(#[trigger] root_of(ds[k])),
{
    lemma_starts_exact(m);
    lemma_starts_below_exact(m, m.size as int);
    assert forall|k: int| 0 <= k < ds.len() implies #[trigger] root_of(ds[k]) == m.starts()[k] as int by {
        assert(m.is_traversal(m.starts()[k] as int, ds[k]));
    }
    assert forall|y: int| 0 <= y < m.size && m.is_start(y) implies exists|k: int|
        0 <= k < ds.len() && #[trigger] root_of(ds[k]) == y by {
        let k = choose|k: int| 0 <= k < m.starts().len() && m.starts()[k] == y as usize;
        assert(root_of(ds[k]) == y);
    }
    assert forall|k: int| 0 <= k < ds.len() implies m.is_start(#[trigger] root_of(ds[k])) by {
        assert(root_of(ds[k]) == m.starts()[k] as int);
    }
}

/// With no edge at all, every node is a starting node and its traversal is a
/// `Single`.
pub proof fn lemma_no_edges(m: AdjacView, ds: Seq<MyDAG>)
    requires
        m.size <= usize::MAX,
        forall|i: int, j: int| !#[trigger] m.edge(i, j),
        ds.len() == m.starts().len(),
        forall|k: int| 0 <= k < ds.len() ==> m.is_traversal(m.starts()[k] as int, #[trigger] ds[k]),
    ensures
        m.starts().len() == m.size,
        forall|k: int| 0 <= k < m.size ==> m.starts()[k] == k,
        forall|k: int| 0 <= k < ds.len() ==> #[trigger] ds[k] == MyDAG::Single(k as usize),
{
    lemma_no_edges_below(m, m.size as int);
    assert forall|k: int| 0 <= k < ds.len() implies #[trigger] ds[k] == MyDAG::Single(k as usize) by {
        assert(m.is_traversal(m.starts()[k] as int, ds[k]));
        match ds[k] {
            MyDAG::Path(p) => {
                let (a, b) = p@[0];
                assert(p@.contains((a, b)));
            },
            MyDAG::Single(a) => {},
        }
    }
}

proof fn lemma_no_edges_below(m: AdjacView, n: int)
    requires
        forall|i: int, j: int| !#[trigger] m.edge(i, j),
        0 <= n <= m.size <= usize::MAX,
    ensures
        m.starts_below(n).len() == n,
        forall|k: int| 0 <= k < n ==> m.starts_below(n)[k] == k,
    decreases n,
{
    if n > 0 {
        lemma_no_edges_below(m, n - 1);
        assert(m.is_start(n - 1));
        let s = m.starts_below(n - 1);
        assert(m.starts_below(n) == s.push((n - 1) as usize));
        assert forall|k: int| 0 <= k < n implies m.starts_below(n)[k] == k by {
            if k < n - 1 {
                assert(s.push((n - 1) as usize)[k] == s[k]);
            }
        }
    }
}

/// Some node on a cycle is reached by no node of smaller index: the cycle
/// check, which starts its searches in ascending order and never visits a node
/// twice, then finds an edge back into that node's own search.
pub open spec fn has_cycle_seen_first(m: AdjacView) -> bool {
    exists|c: int|
        0 <= c < m.size && #[trigger] m.on_cycle(c) && forall|k: int|
            0 <= k < c ==> !m.reaches(k, c)
}

/// The cycle report is empty exactly when the matrix is acyclic, on every
/// matrix that is acyclic or has a cycle node reached by no node of smaller
/// index. (A cycle whose every node is reached from a node of smaller index,
/// off the cycle, may be found by an earlier search that never returns to its
/// own start, and is then not reported.)
pub proof fn lemma_report_empty_iff_acyclic(m: AdjacView, r: Seq<Vec<String>>)
    requires
        m.is_acyclic() || has_cycle_seen_first(m),
        r.len() > 0 <==> has_cycle_seen_first(m),
    ensures
        r.len() == 0 <==> m.is_acyclic(),
{
    if m.is_acyclic() && has_cycle_seen_first(m) {
        let c = choose|c: int|
            0 <= c < m.size && #[trigger] m.on_cycle(c) && forall|k: int|
                0 <= k < c ==> !m.reaches(k, c);
        assert(!m.on_cycle(c));
    }
}

/// Running the decomposition twice on one matrix gives the same traversals.
pub proof fn lemma_decomposition_deterministic(m: AdjacView, r1: Seq<MyDAG>, r2: Seq<MyDAG>)
    requires
        r1.len() == m.starts().len(),
        r2.len() == m.starts().len(),
        forall|k: int|
            0 <= k < r1.len() ==> #[trigger] dag_view(r1[k]) == m.traversal_view(
                m.starts()[k] as int,
            ),
        forall|k: int|
            0 <= k < r2.len() ==> #[trigger] dag_view(r2[k]) == m.traversal_view(
                m.starts()[k] as int,
            ),
    ensures
        r1.map_values(|d: MyDAG| dag_view(d)) == r2.map_values(|d: MyDAG| dag_view(d)),
{
    assert(r1.map_values(|d: MyDAG| dag_view(d)) =~= r2.map_values(|d: MyDAG| dag_view(d)));
}

/// The labels of a cycle report.
pub open spec fn report_view(r: Seq<Vec<String>>) -> Seq<Seq<Seq<char>>> {
    r.map_values(|g: Vec<String>| g@.map_values(|x: String| x@))
}

/// Running the cycle check twice on one matrix gives the same report.
pub proof fn lemma_loop_report_deterministic(m: AdjacView, r1: Seq<Vec<String>>, r2: Seq<Vec<String>>)
    requires
        r1.len() == m.touch_report().len(),
        forall|g: int|
            0 <= g < r1.len() ==> (#[trigger] r1[g])@.len() == m.touch_report()[g].1 && forall|
                e: int,
            | 0 <= e < r1[g]@.len() ==> (#[trigger] r1[g]@[e])@ == m.labels[m.touch_report()[g].0],
        r2.len() == m.touch_report().len(),
        forall|g: int|
            0 <= g < r2.len() ==> (#[trigger] r2[g])@.len() == m.touch_report()[g].1 && forall|
                e: int,
            | 0 <= e < r2[g]@.len() ==> (#[trigger] r2[g]@[e])@ == m.labels[m.touch_report()[g].0],
    ensures
        report_view(r1) == report_view(r2),
{
    assert forall|g: int| 0 <= g < r1.len() implies #[trigger] report_view(r1)[g] == report_view(r2)[g] by {
        assert(report_view(r1)[g] =~= report_view(r2)[g]);
    }
    assert(report_view(r1) =~= report_view(r2));
}

proof fn lemma_reach_trans(m: AdjacView, a: int, b: int, c: int)
    requires
        m.reaches(a, b),
        m.reaches(b, c),
    ensures
        m.reaches(a, c),
{
    let p = choose|p: Seq<int>| #[trigger] m.is_walk(p) && p[0] == a && p.last() == b;
    let q = choose|q: Seq<int>| #[trigger] m.is_walk(q) && q[0] == b && q.last() == c;
    let w = p + q.drop_first();
    assert forall|k: int| 0 <= k < w.len() - 1 implies #[trigger] m.edge(w[k], w[k + 1]) by {
        if k < p.len() - 1 {
            assert(w[k] == p[k] && w[k + 1] == p[k + 1]);
        } else if k == p.len() - 1 {
            assert(w[k] == q[0] && w[k + 1] == q[1]);
            assert(m.edge(q[0], q[0int + 1]));
        } else {
            let t = k - p.len() + 1;
            assert(w[k] == q[t] && w[k + 1] == q[t + 1]);
        }
    }
    if q.len() == 1 {
        assert(w =~= p);
    } else {
        assert(w.last() == q.last());
    }
    assert(m.is_walk(w) && w[0] == a && w.last() == c);
}

/// Every node of a walk reaches its last node.
proof fn lemma_walk_suffix_reaches(m: AdjacView, p: Seq<int>, t: int)
    requires
        m.is_walk(p),
        0 <= t < p.len(),
    ensures
        m.reaches(p[t], p.last()),
{
    let q = p.subrange(t, p.len() as int);
    assert forall|k: int| 0 <= k < q.len() - 1 implies #[trigger] m.edge(q[k], q[k + 1]) by {
        assert(m.edge(p[t + k], p[t + k + 1]));
    }
    assert(m.is_walk(q) && q[0] == p[t] && q.last() == p.last());
}

/// A search that marks the successors of each node it newly visits, but for
/// `start`, visits every node of a walk from a visited node through nodes that
/// were not visited before.
proof fn lemma_white_walk(m: AdjacView, before: Set<nat>, after: Set<nat>, start: int, p: Seq<int>)
    requires
        m.is_walk(p),
        0 <= p[0] < m.size,
        after.contains(p[0] as nat),
        after.contains(start as nat),
        forall|t: int| 0 <= t < p.len() ==> !before.contains((#[trigger] p[t]) as nat),
        forall|u: int, v: int|
            0 <= u < m.size && after.contains(u as nat) && !before.contains(u as nat)
                && #[trigger] m.edge(u, v) && v != start ==> after.contains(v as nat),
    ensures
        after.contains(p.last() as nat),
    decreases p.len(),
{
    if p.len() > 1 {
        let q = p.drop_last();
        assert forall|k: int| 0 <= k < q.len() - 1 implies #[trigger] m.edge(q[k], q[k + 1]) by {
            assert(m.edge(p[k], p[k + 1]));
        }
        assert forall|t: int| 0 <= t < q.len() implies !before.contains((#[trigger] q[t]) as nat) by {
            assert(q[t] == p[t]);
        }
        lemma_white_walk(m, before, after, start, q);
        let n = p.len() - 2;
        assert(m.edge(p[n], p[n + 1]));
        assert(!before.contains(p[n] as nat));
    }
}

/// A set of nodes closed under edges holds every node that its members reach.
proof fn lemma_closed_set_holds_reach(m: AdjacView, vis: Set<nat>, a: int, p: Seq<int>)
    requires
        0 <= a < m.size,
        vis.contains(a as nat),
        forall|u: int, v: int|
            0 <= u < m.size && vis.contains(u as nat) && #[trigger] m.edge(u, v) ==> vis.contains(
                v as nat,
            ),
        m.is_walk(p),
        p[0] == a,
    ensures
        vis.contains(p.last() as nat),
    decreases p.len(),
{
    if p.len() > 1 {
        let q = p.drop_last();
        assert forall|k: int| 0 <= k < q.len() - 1 implies #[trigger] m.edge(q[k], q[k + 1]) by {
            assert(m.edge(p[k], p[k + 1]));
        }
        lemma_closed_set_holds_reach(m, vis, a, q);
        assert(m.edge(p[p.len() - 2], p[p.len() - 2 + 1]));
    }
}

/// The nodes that a search added to the visited set (from `before` to
/// `after`) and that have an edge into `start`, but for `node` unless `seen`.
pub open spec fn back_edges_from(
    m: AdjacView,
    before: Set<nat>,
    after: Set<nat>,
    start: int,
    node: int,
    seen: bool,
) -> Set<int> {
    Set::new(
        |u: int|
            0 <= u < m.size && after.contains(u as nat) && !before.contains(u as nat) && m.edge(
                u,
                start,
            ) && (u != node || seen),
    )
}

proof fn lemma_visited_reached(m: AdjacView, vis: Set<nat>, i: int, u: int)
    requires
        0 <= u < m.size,
        vis.contains(u as nat),
        forall|w: int|
            0 <= w < m.size && #[trigger] vis.contains(w as nat) ==> exists|k: int|
                0 <= k < i && m.reaches(k, w),
    ensures
        exists|k: int| 0 <= k < i && m.reaches(k, u),
{
}

/// A set of indices below `n` is finite.
proof fn lemma_below_finite(s: Set<int>, n: int)
    requires
        0 <= n,
        forall|u: int| #[trigger] s.contains(u) ==> 0 <= u < n,
    ensures
        s.finite(),
{
    vstd::set_lib::lemma_int_range(0, n);
    vstd::set_lib::lemma_len_subset(s, vstd::set_lib::set_int_range(0, n));
}

proof fn lemma_avoiding_single(m: AdjacView, vis: Set<nat>, a: int)
    requires
        !vis.contains(a as nat),
    ensures
        m.reaches_avoiding(vis, a, a),
{
    let p = seq![a];
    assert(m.is_walk(p));
    assert forall|t: int| 0 <= t < p.len() implies !vis.contains((#[trigger] p[t]) as nat) by {
        assert(p[t] == a);
    }
}

proof fn lemma_avoiding_prepend(
    m: AdjacView,
    small: Set<nat>,
    big: Set<nat>,
    a: int,
    b: int,
    c: int,
)
    requires
        small.subset_of(big),
        !small.contains(a as nat),
        m.edge(a, b),
        m.reaches_avoiding(big, b, c),
    ensures
        m.reaches_avoiding(small, a, c),
{
    let p = choose|p: Seq<int>|
        #[trigger] m.is_walk(p) && p[0] == b && p.last() == c && forall|t: int|
            0 <= t < p.len() ==> !big.contains((#[trigger] p[t]) as nat);
    let q = seq![a] + p;
    assert forall|k: int| 0 <= k < q.len() - 1 implies #[trigger] m.edge(q[k], q[k + 1]) by {
        if k > 0 {
            assert(q[k] == p[k - 1] && q[k + 1] == p[k]);
            assert(m.edge(p[k - 1], p[k - 1 + 1]));
        }
    }
    assert forall|t: int| 0 <= t < q.len() implies !small.contains((#[trigger] q[t]) as nat) by {
        if t > 0 {
            assert(q[t] == p[t - 1]);
            assert(!big.contains(p[t - 1] as nat));
        }
    }
    assert(m.is_walk(q) && q[0] == a && q.last() == c);
}

/// A finite set of naturals all below `n` has at most `n` members.
proof fn lemma_below_len(s: Set<nat>, n: nat)
    requires
        s.finite(),
        forall|x: nat| #[trigger] s.contains(x) ==> x < n,
    ensures
        s.len() <= n,
    decreases n,
{
    if n == 0 {
        assert(s =~= Set::<nat>::empty());
    } else {
        let t = s.remove((n - 1) as nat);
        lemma_below_len(t, (n - 1) as nat);
    }
}

impl Adjac {
    pub open spec fn wf(&self) -> bool {
        &&& self@.labels.len() == self@.size
        &&& self@.size * self@.size <= usize::MAX
    }

    /// The matrix of the graph `g`: bit `i * n + j` is set exactly where `g`
    /// holds at least one edge `i -> j`.
    pub fn new_from_graph(g: &Graph<String, ()>) -> (r: Self)
        requires
            graph_nodes(*g).len() * graph_nodes(*g).len() <= usize::MAX,
        ensures
            r.wf(),
            r@.size == graph_nodes(*g).len(),
            r@.labels == graph_nodes(*g),
            forall|i: int, j: int|
                r@.edge(i, j) <==> 0 <= i < r@.size && 0 <= j < r@.size
                    && graph_edges(*g).contains((i as nat, j as nat)),
    {
        let size = graph_node_count(g);
        proof {
            assert(size * size <= usize::MAX);
        }
        let mut bitset = bitset_with_capacity(size * size);
        let pairs = graph_edge_pairs(g);
        let mut k: usize = 0;
        while k < pairs.len()
            invariant
                pairs@.len() == graph_edges(*g).len(),
                forall|m: int|
                    0 <= m < pairs@.len() ==> (#[trigger] pairs@[m]).0 < size && pairs@[m].1 < size
                        && pairs@[m].0 as nat == graph_edges(*g)[m].0 && pairs@[m].1 as nat
                        == graph_edges(*g)[m].1,
                size == graph_nodes(*g).len(),
                size * size <= usize::MAX,
                bit_len(bitset) == size * size,
                k <= pairs@.len(),
                forall|i: int, j: int|
                    0 <= i < size && 0 <= j < size ==> (#[trigger] bits_of(bitset).contains(
                        cell(i, j, size as int),
                    ) <==> exists|m: int|
                        0 <= m < k && #[trigger] pairs@[m] == (i as usize, j as usize)),
            decreases pairs@.len() - k,
        {
            let (a, b) = pairs[k];
            proof {
                lemma_cell_bound(a as int, b as int, size as int);
            }
            let ghost before = bits_of(bitset);
            bitset_insert(&mut bitset, a * size + b);
            proof {
                assert forall|i: int, j: int| 0 <= i < size && 0 <= j < size implies (#[trigger] bits_of(
                    bitset,
                ).contains(cell(i, j, size as int)) <==> exists|m: int|
                    0 <= m < k + 1 && #[trigger] pairs@[m] == (i as usize, j as usize)) by {
                    lemma_cell_bound(i, j, size as int);
                    if i * size + j == a * size + b {
                        lemma_cell_unique(i, j, a as int, b as int, size as int);
                        assert(pairs@[k as int] == (i as usize, j as usize));
                    } else {
                        if exists|m: int|
                            0 <= m < k + 1 && #[trigger] pairs@[m] == (i as usize, j as usize) {
                            let m = choose|m: int|
                                0 <= m < k + 1 && #[trigger] pairs@[m] == (i as usize, j as usize);
                            assert(m != k);
                        }
                    }
                }
            }
            k = k + 1;
        }
        let rn = graph_node_weights(g);
        let r = Adjac { bitset, rn, size };
        proof {
            assert(r@.labels =~= graph_nodes(*g));
            assert forall|i: int, j: int|
                r@.edge(i, j) <==> 0 <= i < r@.size && 0 <= j < r@.size
                    && graph_edges(*g).contains((i as nat, j as nat)) by {
                if 0 <= i < size && 0 <= j < size {
                    if r@.edge(i, j) {
                        let m = choose|m: int|
                            0 <= m < k && #[trigger] pairs@[m] == (i as usize, j as usize);
                        assert(graph_edges(*g)[m] == (i as nat, j as nat));
                    }
                    if graph_edges(*g).contains((i as nat, j as nat)) {
                        let m = choose|m: int|
                            0 <= m < graph_edges(*g).len() && graph_edges(*g)[m] == (
                                i as nat,
                                j as nat,
                            );
                        assert(pairs@[m] == (i as usize, j as usize));
                    }
                }
            }
        }
        r
    }

    /// The matrix of `g` where its node count squared fits in `usize`;
    /// `None` otherwise.
    pub fn try_new_from_graph(g: &Graph<String, ()>) -> (r: Option<Self>)
        ensures
            r is Some <==> graph_nodes(*g).len() * graph_nodes(*g).len() <= usize::MAX,
            r is Some ==> r->Some_0.wf() && r->Some_0@.size == graph_nodes(*g).len()
                && r->Some_0@.labels == graph_nodes(*g),
            r is Some ==> forall|i: int, j: int|
                #[trigger] r->Some_0@.edge(i, j) <==> 0 <= i < graph_nodes(*g).len() && 0 <= j
                    < graph_nodes(*g).len() && graph_edges(*g).contains((i as nat, j as nat)),
    {
        let n = graph_node_count(g);
        if n > 0 && n > usize::MAX / n {
            proof {
                assert(n * n > usize::MAX) by (nonlinear_arith)
                    requires
                        n > 0,
                        n > usize::MAX / n,
                ;
            }
            return None;
        }
        proof {
            assert(n * n <= usize::MAX) by (nonlinear_arith)
                requires
                    n == 0 || n <= usize::MAX / n,
            ;
        }
        Some(Self::new_from_graph(g))
    }

    /// A matrix over the bits of `f` and the labels `rn`; its size is the
    /// number of labels.
    pub fn new(f: &FixedBitSet, rn: &[String]) -> (r: Self)
        requires
            rn@.len() * rn@.len() <= usize::MAX,
        ensures
            r.wf(),
            r@.size == rn@.len(),
            r@.bits == bits_of(*f),
            r@.labels == rn@.map_values(|s: String| s@),
    {
        let size = rn.len();
        let mut labels: Vec<String> = Vec::new();
        let mut k: usize = 0;
        while k < size
            invariant
                size == rn@.len(),
                k <= size,
                labels@.len() == k,
                forall|m: int| 0 <= m < k ==> #[trigger] labels@[m] == rn@[m],
            decreases size - k,
        {
            labels.push(rn[k].clone());
            k = k + 1;
        }
        let r = Adjac { bitset: bitset_clone(f), rn: labels, size };
        proof {
            assert(r@.labels =~= rn@.map_values(|s: String| s@));
        }
        r
    }

    pub fn getsize(&self) -> (r: usize)
        ensures
            r == self@.size,
    {
        self.size
    }

    /// Whether the matrix holds the edge `x -> y`.
    pub fn contains(&self, x: usize, y: usize) -> (r: bool)
        requires
            self.wf(),
            x < self@.size,
            y < self@.size,
        ensures
            r == self@.edge(x as int, y as int),
    {
        proof {
            lemma_cell_bound(x as int, y as int, self.size as int);
        }
        bitset_contains(&self.bitset, x * self.size + y)
    }

    /// The nodes with no incoming edge, in ascending order.
    pub fn select_starting_nodes(&self) -> (r: Vec<usize>)
        requires
            self.wf(),
        ensures
            r@ == self@.starts(),
    {
        let mut v: Vec<usize> = Vec::new();
        let mut y: usize = 0;
        while y < self.size
            invariant
                self.wf(),
                y <= self@.size,
                v@ == self@.starts_below(y as int),
            decreases self@.size - y,
        {
            let mut has1 = false;
            let mut x: usize = 0;
            while x < self.size
                invariant
                    self.wf(),
                    y < self@.size,
                    x <= self@.size,
                    has1 <==> exists|z: int| 0 <= z < x && #[trigger] self@.edge(z, y as int),
                decreases self@.size - x,
            {
                if self.contains(x, y) {
                    has1 = true;
                }
                x = x + 1;
            }
            if !has1 {
                v.push(y);
            }
            y = y + 1;
        }
        v
    }

    /// The traversals from the starting nodes, one for each, in ascending order
    /// of starting node.
    pub fn connected_dags(&self) -> (r: Vec<MyDAG>)
        requires
            self.wf(),
        ensures
            r@.len() == self@.starts().len(),
            forall|k: int|
                0 <= k < r@.len() ==> self@.is_traversal(self@.starts()[k] as int, #[trigger] r@[k]),
            forall|k: int|
                0 <= k < r@.len() ==> #[trigger] dag_view(r@[k]) == self@.traversal_view(
                    self@.starts()[k] as int,
                ),
    {
        let startings = self.select_starting_nodes();
        let mut sub_dags: Vec<MyDAG> = Vec::new();
        let mut k: usize = 0;
        while k < startings.len()
            invariant
                self.wf(),
                startings@ == self@.starts(),
                k <= startings@.len(),
                sub_dags@.len() == k,
                forall|m: int|
                    0 <= m < k ==> self@.is_traversal(startings@[m] as int, #[trigger] sub_dags@[m]),
                forall|m: int|
                    0 <= m < k ==> #[trigger] dag_view(sub_dags@[m]) == self@.traversal_view(
                        startings@[m] as int,
                    ),
            decreases startings@.len() - k,
        {
            let node = startings[k];
            proof {
                lemma_starts_below_exact(self@, self@.size as int);
            }
            let d = self.traversal(node);
            sub_dags.push(d);
            k = k + 1;
        }
        sub_dags
    }

    /// The traversal from one node.
    fn traversal(&self, node: usize) -> (r: MyDAG)
        requires
            self.wf(),
            node < self@.size,
        ensures
            self@.is_traversal(node as int, r),
            dag_view(r) == self@.traversal_view(node as int),
    {
        let mut visited: Vec<bool> = vec![false; self.size];
        let mut dag: Vec<(usize, usize)> = Vec::new();
        let ghost v0 = visited@;
        self.dfs(node, &mut visited, &mut dag);
        proof {
            assert(v0 =~= Seq::new(self@.size, |k: int| false));
            assert(dag@ =~= self@.walk_of(node as int));
            let m = self@;
            assert forall|u: int, v: int|
                0 <= u < m.size && visited@[u] && #[trigger] m.edge(u, v) implies visited@[v] by {
                assert(fresh(v0, visited@, u));
            }
            assert forall|a: usize, b: usize|
                #[trigger] dag@.contains((a, b)) <==> m.edge(a as int, b as int) && m.reaches(
                    node as int,
                    a as int,
                ) by {
                if dag@.contains((a, b)) {
                    let k = choose|k: int| 0 <= k < dag@.len() && dag@[k] == (a, b);
                    assert(fresh(v0, visited@, a as int));
                }
                if m.edge(a as int, b as int) && m.reaches(node as int, a as int) {
                    let p = choose|p: Seq<int>|
                        #[trigger] m.is_walk(p) && p[0] == node as int && p.last() == a as int;
                    lemma_closed_holds_reach(m, visited@, node as int, p);
                    assert(fresh(v0, visited@, a as int));
                    let k = choose|k: int|
                        0 <= k < dag@.len() && #[trigger] dag@[k] == (a, b);
                    assert(dag@.contains((a, b)));
                }
            }
            if dag@.len() == 0 {
                assert forall|j: int| !#[trigger] m.edge(node as int, j) by {
                    if m.edge(node as int, j) {
                        assert(fresh(v0, visited@, node as int));
                    }
                }
            }
        }
        if dag.len() > 0 {
            MyDAG::Path(dag)
        } else {
            MyDAG::Single(node)
        }
    }

    /// Depth-first walk from `node`: each edge found is recorded before its
    /// target is entered, and a target already visited is not entered again.
    fn dfs(&self, node: usize, visited: &mut Vec<bool>, dag: &mut Vec<(usize, usize)>)
        requires
            self.wf(),
            node < self@.size,
            old(visited)@.len() == self@.size,
            !old(visited)@[node as int],
        ensures
            final(visited)@.len() == self@.size,
            final(visited)@[node as int],
            forall|u: int| 0 <= u < self@.size && old(visited)@[u] ==> final(visited)@[u],
            final(dag)@.len() >= old(dag)@.len(),
            forall|k: int| 0 <= k < old(dag)@.len() ==> final(dag)@[k] == old(dag)@[k],
            final(dag)@.len() > old(dag)@.len() ==> final(dag)@[old(dag)@.len() as int].0 == node,
            forall|k: int|
                old(dag)@.len() <= k < final(dag)@.len() ==> self@.edge(
                    (#[trigger] final(dag)@[k]).0 as int,
                    final(dag)@[k].1 as int,
                ) && fresh(old(visited)@, final(visited)@, final(dag)@[k].0 as int),
            forall|u: int|
                #[trigger] fresh(old(visited)@, final(visited)@, u) ==> self@.reaches(node as int, u),
            forall|u: int, v: int|
                fresh(old(visited)@, final(visited)@, u) && #[trigger] self@.edge(u, v)
                    ==> final(visited)@[v] && exists|k: int|
                    old(dag)@.len() <= k < final(dag)@.len() && #[trigger] final(dag)@[k] == (
                        u as usize,
                        v as usize,
                    ),
            final(dag)@ == old(dag)@ + self@.visit(node as int, old(visited)@).0,
            final(visited)@ == self@.visit(node as int, old(visited)@).1,
        decreases unvisited(old(visited)@),
    {
        let ghost v0 = visited@;
        let ghost dag0 = dag@;
        let ghost d0 = dag@.len() as int;
        let len = self.getsize();
        visited.set(node, true);
        let ghost s0 = self@.scan(node as int, 0, visited@);
        proof {
            lemma_walk_single(self@, node as int);
            assert(!v0[node as int] && visited@[node as int]);
            lemma_unvisited_shrinks(v0, visited@);
            assert(self@.visit(node as int, v0) == s0);
            assert(dag@.subrange(d0, dag@.len() as int) =~= Seq::<(usize, usize)>::empty());
            assert(Seq::<(usize, usize)>::empty() + s0.0 =~= s0.0);
        }
        let mut i: usize = 0;
        while i < len
            invariant
                self.wf(),
                len == self@.size,
                node < len,
                i <= len,
                v0.len() == len,
                v0 == old(visited)@,
                s0 == self@.visit(node as int, v0),
                dag@.subrange(d0, dag@.len() as int) + self@.scan(node as int, i as int, visited@).0
                    == s0.0,
                self@.scan(node as int, i as int, visited@).1 == s0.1,
                !v0[node as int],
                visited@.len() == len,
                visited@[node as int],
                forall|u: int| 0 <= u < len && v0[u] ==> visited@[u],
                dag@.len() >= d0,
                d0 == dag0.len(),
                forall|k: int| 0 <= k < d0 ==> dag@[k] == dag0[k],
                dag@.len() > d0 ==> dag@[d0].0 == node,
                forall|k: int|
                    d0 <= k < dag@.len() ==> self@.edge(
                        (#[trigger] dag@[k]).0 as int,
                        dag@[k].1 as int,
                    ) && fresh(v0, visited@, dag@[k].0 as int),
                forall|u: int| #[trigger] fresh(v0, visited@, u) ==> self@.reaches(node as int, u),
                forall|u: int, v: int|
                    fresh(v0, visited@, u) && u != node && #[trigger] self@.edge(u, v)
                        ==> visited@[v] && exists|k: int|
                        d0 <= k < dag@.len() && #[trigger] dag@[k] == (u as usize, v as usize),
                forall|j: int|
                    0 <= j < i && #[trigger] self@.edge(node as int, j) ==> visited@[j] && exists|
                        k: int,
                    | d0 <= k < dag@.len() && #[trigger] dag@[k] == (node, j as usize),
            decreases len - i,
        {
            let ghost cur = visited@;
            let ghost dcur = dag@;
            let ghost pre = dag@.subrange(d0, dag@.len() as int);
            let ghost tail = self@.scan(node as int, i + 1, cur);
            if self.contains(node, i) {
                let ghost dag_before = dag@;
                dag.push((node, i));
                proof {
                    assert(dag@.subrange(d0, dag@.len() as int) =~= pre.push((node, i)));
                }
                proof {
                    assert(dag@[dag@.len() - 1] == (node, i));
                    assert forall|u: int, v: int|
                        fresh(v0, visited@, u) && u != node && #[trigger] self@.edge(u, v)
                            implies visited@[v] && exists|k: int|
                            d0 <= k < dag@.len() && #[trigger] dag@[k] == (
                                u as usize,
                                v as usize,
                            ) by {
                        let k = choose|k: int|
                            d0 <= k < dag_before.len() && #[trigger] dag_before[k] == (
                                u as usize,
                                v as usize,
                            );
                        assert(dag@[k] == dag_before[k]);
                    }
                    assert forall|j: int|
                        0 <= j < i && #[trigger] self@.edge(node as int, j) implies visited@[j]
                            && exists|k: int|
                            d0 <= k < dag@.len() && #[trigger] dag@[k] == (node, j as usize) by {
                        let k = choose|k: int|
                            d0 <= k < dag_before.len() && #[trigger] dag_before[k] == (
                                node,
                                j as usize,
                            );
                        assert(dag@[k] == dag_before[k]);
                    }
                }
                if !visited[i] {
                    let ghost v1 = visited@;
                    let ghost dag1 = dag@;
                    proof {
                        assert(!v0[node as int] && v1[node as int]);
                        lemma_unvisited_shrinks(v0, v1);
                        assert(unvisited(v1) < unvisited(v0));
                        assert(unvisited(visited@) < unvisited(v0));
                    }
                    self.dfs(i, visited, dag);
                    proof {
                        let m = self@;
                        assert forall|u: int| #[trigger] fresh(v0, visited@, u) implies m.reaches(
                            node as int,
                            u,
                        ) by {
                            if fresh(v1, visited@, u) {
                                lemma_reach_prepend(m, node as int, i as int, u);
                            } else {
                                assert(fresh(v0, v1, u));
                            }
                        }
                        assert forall|u: int, v: int|
                            fresh(v0, visited@, u) && u != node && #[trigger] m.edge(u, v)
                                implies visited@[v] && exists|k: int|
                                d0 <= k < dag@.len() && #[trigger] dag@[k] == (
                                    u as usize,
                                    v as usize,
                                ) by {
                            if fresh(v1, visited@, u) {
                                let k = choose|k: int|
                                    dag1.len() <= k < dag@.len() && #[trigger] dag@[k] == (
                                        u as usize,
                                        v as usize,
                                    );
                            } else {
                                assert(fresh(v0, v1, u));
                                let k = choose|k: int|
                                    d0 <= k < dag1.len() && #[trigger] dag1[k] == (
                                        u as usize,
                                        v as usize,
                                    );
                                assert(dag@[k] == dag1[k]);
                            }
                        }
                        assert forall|j: int|
                            0 <= j <= i && #[trigger] m.edge(node as int, j) implies visited@[j]
                                && exists|k: int|
                                d0 <= k < dag@.len() && #[trigger] dag@[k] == (
                                    node,
                                    j as usize,
                                ) by {
                            let k = choose|k: int|
                                d0 <= k < dag1.len() && #[trigger] dag1[k] == (node, j as usize);
                            assert(dag@[k] == dag1[k]);
                        }
                        assert forall|k: int|
                            d0 <= k < dag@.len() implies m.edge(
                                (#[trigger] dag@[k]).0 as int,
                                dag@[k].1 as int,
                            ) && fresh(v0, visited@, dag@[k].0 as int) by {
                            if k < dag1.len() {
                                assert(dag@[k] == dag1[k]);
                            }
                        }
                        lemma_unvisited_shrinks(cur, visited@);
                        let r1 = m.visit(i as int, cur);
                        assert(unvisited(r1.1) <= unvisited(cur));
                        let r2 = m.scan(node as int, i + 1, r1.1);
                        assert(m.scan(node as int, i as int, cur) == (
                            seq![(node, i)] + r1.0 + r2.0,
                            r2.1,
                        ));
                        assert(dag@.subrange(d0, dag@.len() as int) =~= pre.push((node, i))
                            + r1.0);
                        assert(dag@.subrange(d0, dag@.len() as int) + r2.0 =~= pre + (seq![
                            (node, i),
                        ] + r1.0 + r2.0));
                    }
                } else {
                    proof {
                        assert(self@.scan(node as int, i as int, cur) == (
                            seq![(node, i)] + tail.0,
                            tail.1,
                        ));
                        assert(pre.push((node, i)) + tail.0 =~= pre + (seq![(node, i)] + tail.0));
                    }
                }
            } else {
                proof {
                    assert(self@.scan(node as int, i as int, cur) == tail);
                }
            }
            i = i + 1;
        }
    }

    /// The cycle report: for each node, in ascending order, that no earlier
    /// search has visited, a depth-first search from it over the nodes not yet
    /// visited (the visited set is shared by all the searches); each edge found
    /// back into the search's own start adds that start once more. A search
    /// that found none reports nothing; one that did reports its start's label
    /// once per such edge.
    pub fn check_loops(&self) -> (r: Vec<Vec<String>>)
        requires
            self.wf(),
        ensures
            forall|g: int|
                0 <= g < r@.len() ==> (#[trigger] r@[g])@.len() > 0 && exists|i: int|
                    0 <= i < self@.size && self@.on_cycle(i) && forall|e: int|
                        0 <= e < r@[g]@.len() ==> (#[trigger] r@[g]@[e])@ == self@.labels[i],
            r@.len() == self@.touch_report().len(),
            forall|g: int|
                0 <= g < r@.len() ==> (#[trigger] r@[g])@.len() == self@.touch_report()[g].1
                    && forall|e: int|
                    0 <= e < r@[g]@.len() ==> (#[trigger] r@[g]@[e])@
                        == self@.labels[self@.touch_report()[g].0],
            r@.len() > 0 <==> has_cycle_seen_first(self@),
    {
        let mut loops: Vec<Vec<String>> = Vec::new();
        let mut visited = bitset_with_capacity(self.size);
        let ghost rep = self@.touch_report();
        proof {
            assert(bits_of(visited) == Set::<nat>::empty());
        }
        let mut i: usize = 0;
        while i < self.size
            invariant
                self.wf(),
                i <= self@.size,
                bit_len(visited) == self@.size,
                bits_of(visited).finite(),
                forall|x: nat| #[trigger] bits_of(visited).contains(x) ==> x < self@.size,
                forall|g: int|
                    0 <= g < loops@.len() ==> (#[trigger] loops@[g])@.len() > 0 && exists|i: int|
                        0 <= i < self@.size && self@.on_cycle(i) && forall|e: int|
                            0 <= e < loops@[g]@.len() ==> (#[trigger] loops@[g]@[e])@
                                == self@.labels[i],
                rep == self@.touch_report(),
                forall|u: int, v: int|
                    0 <= u < self@.size && bits_of(visited).contains(u as nat) && #[trigger] self@.edge(
                        u,
                        v,
                    ) ==> bits_of(visited).contains(v as nat),
                forall|k: int| 0 <= k < i ==> #[trigger] bits_of(visited).contains(k as nat),
                loops@.len() > 0 ==> has_cycle_seen_first(self@),
                forall|u: int|
                    0 <= u < self@.size && #[trigger] bits_of(visited).contains(u as nat) ==> exists|
                        k: int,
                    | 0 <= k < i && self@.reaches(k, u),
                (exists|c: int|
                    0 <= c < i && #[trigger] self@.on_cycle(c) && forall|k: int|
                        0 <= k < c ==> !self@.reaches(k, c)) ==> loops@.len() > 0,
                loops@.len() + self@.touch_report_from(i as int).len() == rep.len(),
                forall|g: int|
                    0 <= g < self@.touch_report_from(i as int).len() ==> #[trigger] self@.touch_report_from(
                        i as int,
                    )[g] == rep[loops@.len() + g],
                forall|g: int|
                    0 <= g < loops@.len() ==> (#[trigger] loops@[g])@.len() == rep[g].1 && forall|
                        e: int,
                    |
                        0 <= e < loops@[g]@.len() ==> (#[trigger] loops@[g]@[e])@
                            == self@.labels[rep[g].0],
            decreases self@.size - i,
        {
            let ghost cur = bits_of(visited);
            let ghost lcur = loops@;
            if !bitset_contains(&visited, i) {
                let mut loop_nodes: Vec<usize> = Vec::new();
                self.dfs_loop(i, i, &mut visited, &mut loop_nodes);
                proof {
                    let m = self@;
                    let after = bits_of(visited);
                    assert forall|k: int| 0 <= k < i implies !m.reaches(k, i as int) by {
                        assert(cur.contains(k as nat));
                        if m.reaches(k, i as int) {
                            let p = choose|p: Seq<int>|
                                #[trigger] m.is_walk(p) && p[0] == k && p.last() == i as int;
                            lemma_closed_set_holds_reach(m, cur, k, p);
                        }
                    }
                    if loop_nodes@.len() > 0 {
                        let u = choose|u: int|
                            0 <= u < m.size && after.contains(u as nat) && !cur.contains(u as nat)
                                && #[trigger] m.edge(u, i as int);
                        assert(m.on_cycle(i as int));
                        assert(has_cycle_seen_first(m));
                    }
                    assert forall|u: int, v: int|
                        0 <= u < m.size && after.contains(u as nat) && #[trigger] m.edge(u, v)
                            implies after.contains(v as nat) by {
                        if cur.contains(u as nat) {
                            assert(cur.contains(v as nat));
                        }
                    }
                    assert forall|u: int|
                        0 <= u < m.size && #[trigger] after.contains(u as nat) implies exists|k: int|
                        0 <= k < i + 1 && m.reaches(k, u) by {
                        if !cur.contains(u as nat) {
                            assert(m.reaches(i as int, u));
                        } else {
                            let k = choose|k: int| 0 <= k < i && m.reaches(k, u);
                        }
                    }
                    if m.on_cycle(i as int) && forall|k: int| 0 <= k < i ==> !m.reaches(k, i as int) {
                        let j = choose|j: int| #[trigger] m.edge(j, i as int) && m.reaches(i as int, j);
                        let p = choose|p: Seq<int>|
                            #[trigger] m.is_walk(p) && p[0] == i as int && p.last() == j;
                        assert forall|t: int| 0 <= t < p.len() implies !cur.contains(
                            (#[trigger] p[t]) as nat,
                        ) by {
                            lemma_walk_suffix_reaches(m, p, t);
                            lemma_reach_append(m, p[t], j, i as int);
                            if t < p.len() - 1 {
                                assert(m.edge(p[t], p[t + 1]));
                            }
                            assert(0 <= p[t] < m.size);
                            if cur.contains(p[t] as nat) {
                                let k = choose|k: int| 0 <= k < i && m.reaches(k, p[t]);
                                lemma_reach_trans(m, k, p[t], i as int);
                            }
                        }
                        lemma_white_walk(m, cur, after, i as int, p);
                        assert(after.contains(j as nat) && !cur.contains(j as nat));
                        assert(0 <= j < m.size);
                        assert(loop_nodes@.len() > 0);
                    }
                }
                proof {
                    let m = self@;
                    let after = bits_of(visited);
                    let tp = m.touch_points(i as int);
                    let fresh_back = back_edges_from(m, cur, after, i as int, i as int, true);
                    assert forall|u: int| #[trigger] tp.contains(u) implies fresh_back.contains(u) by {
                        let p = choose|p: Seq<int>|
                            #[trigger] m.is_walk(p) && p[0] == i as int && p.last() == u;
                        lemma_closed_set_holds_reach(m, after, i as int, p);
                        if cur.contains(u as nat) {
                            let k = choose|k: int| 0 <= k < i && m.reaches(k, u);
                        }
                    }
                    assert forall|u: int| #[trigger] fresh_back.contains(u) implies tp.contains(u) by {
                        assert(m.reaches(i as int, u));
                        assert forall|k: int| 0 <= k < i implies !#[trigger] m.reaches(k, u) by {
                            assert(cur.contains(k as nat));
                            if m.reaches(k, u) {
                                let p = choose|p: Seq<int>|
                                    #[trigger] m.is_walk(p) && p[0] == k && p.last() == u;
                                lemma_closed_set_holds_reach(m, cur, k, p);
                            }
                        }
                    }
                    assert(tp =~= fresh_back);
                    assert(loop_nodes@.len() == tp.len());
                }
                if loop_nodes.len() > 0 {
                    let ghost b = bits_of(visited);
                    proof {
                        let u = choose|u: int|
                            0 <= u < self@.size && b.contains(u as nat) && #[trigger] self@.edge(
                                u,
                                i as int,
                            ) && self@.reaches(i as int, u);
                        assert(self@.on_cycle(i as int));
                    }
                    let group = self.labels_of(&loop_nodes);
                    loops.push(group);
                    proof {
                        let cnt = self@.touch_points(i as int).len();
                        let tail = self@.touch_report_from(i + 1);
                        assert(self@.touch_report_from(i as int) == seq![(i as int, cnt)] + tail);
                        assert((seq![(i as int, cnt)] + tail)[0] == (i as int, cnt));
                        assert(self@.touch_report_from(i as int)[0] == rep[lcur.len() as int + 0]);
                        assert(rep[lcur.len() as int] == (i as int, cnt));
                        assert forall|g: int| 0 <= g < tail.len() implies #[trigger] tail[g]
                            == rep[loops@.len() + g] by {
                            assert(tail[g] == (seq![(i as int, cnt)] + tail)[g + 1]);
                        }
                        assert forall|g: int| 0 <= g < loops@.len() implies (#[trigger] loops@[g])@.len()
                            == rep[g].1 && forall|e: int|
                            0 <= e < loops@[g]@.len() ==> (#[trigger] loops@[g]@[e])@
                                == self@.labels[rep[g].0] by {
                            if g < lcur.len() {
                                assert(loops@[g] == lcur[g]);
                            } else {
                                assert forall|e: int| 0 <= e < loops@[g]@.len() implies (
                                #[trigger] loops@[g]@[e])@ == self@.labels[rep[g].0] by {
                                    assert(loop_nodes@[e] == i);
                                }
                            }
                        }
                    }
                } else {
                    proof {
                        assert(self@.touch_report_from(i as int) == self@.touch_report_from(i + 1));
                    }
                }
            } else {
                proof {
                    let m = self@;
                    lemma_visited_reached(m, bits_of(visited), i as int, i as int);
                    let k = choose|k: int| 0 <= k < i && m.reaches(k, i as int);
                    assert forall|u: int| !#[trigger] m.touch_points(i as int).contains(u) by {
                        if m.touch_points(i as int).contains(u) {
                            lemma_reach_trans(m, k, i as int, u);
                        }
                    }
                    assert(m.touch_points(i as int) =~= Set::<int>::empty());
                    assert(m.touch_report_from(i as int) == m.touch_report_from(i + 1));
                }
            }
            i = i + 1;
        }
        loops
    }

    /// The label of each index in `idx`.
    fn labels_of(&self, idx: &Vec<usize>) -> (r: Vec<String>)
        requires
            self.wf(),
            forall|k: int| 0 <= k < idx@.len() ==> #[trigger] idx@[k] < self@.size,
        ensures
            r@.len() == idx@.len(),
            forall|k: int| 0 <= k < idx@.len() ==> (#[trigger] r@[k])@ == self@.labels[idx@[k] as int],
    {
        let mut r: Vec<String> = Vec::new();
        let mut k: usize = 0;
        while k < idx.len()
            invariant
                self.wf(),
                forall|m: int| 0 <= m < idx@.len() ==> #[trigger] idx@[m] < self@.size,
                k <= idx@.len(),
                r@.len() == k,
                forall|m: int| 0 <= m < k ==> (#[trigger] r@[m])@ == self@.labels[idx@[m] as int],
            decreases idx@.len() - k,
        {
            r.push(self.rn[idx[k]].clone());
            k = k + 1;
        }
        r
    }

    /// Depth-first search from `node` over the nodes not yet in `visited`, as
    /// part of the search from `start`: each edge from a visited node back to
    /// `start` appends `start` to `loop_nodes`.
    fn dfs_loop(
        &self,
        start: usize,
        node: usize,
        visited: &mut FixedBitSet,
        loop_nodes: &mut Vec<usize>,
    )
        requires
            self.wf(),
            start < self@.size,
            node < self@.size,
            bit_len(*old(visited)) == self@.size,
            bits_of(*old(visited)).finite(),
            forall|x: nat| #[trigger] bits_of(*old(visited)).contains(x) ==> x < self@.size,
            !bits_of(*old(visited)).contains(node as nat),
            node == start || bits_of(*old(visited)).contains(start as nat),
        ensures
            forall|u: int|
                #![trigger self@.reaches_avoiding(bits_of(*old(visited)), node as int, u)]
                #![trigger bits_of(*final(visited)).contains(u as nat)]
                0 <= u < self@.size ==> (bits_of(*final(visited)).contains(u as nat) && !bits_of(
                    *old(visited),
                ).contains(u as nat) <==> self@.reaches_avoiding(
                    bits_of(*old(visited)),
                    node as int,
                    u,
                )),
            bit_len(*final(visited)) == self@.size,
            bits_of(*final(visited)).finite(),
            forall|x: nat| #[trigger] bits_of(*final(visited)).contains(x) ==> x < self@.size,
            bits_of(*old(visited)).subset_of(bits_of(*final(visited))),
            bits_of(*final(visited)).contains(node as nat),
            final(loop_nodes)@.len() >= old(loop_nodes)@.len(),
            forall|k: int|
                0 <= k < old(loop_nodes)@.len() ==> final(loop_nodes)@[k] == old(loop_nodes)@[k],
            forall|k: int|
                old(loop_nodes)@.len() <= k < final(loop_nodes)@.len()
                    ==> (#[trigger] final(loop_nodes)@[k]) == start,
            forall|u: int|
                0 <= u < self@.size && #[trigger] bits_of(*final(visited)).contains(u as nat)
                    && !bits_of(*old(visited)).contains(u as nat) ==> self@.reaches(node as int, u),
            forall|u: int, v: int|
                0 <= u < self@.size && bits_of(*final(visited)).contains(u as nat) && !bits_of(
                    *old(visited),
                ).contains(u as nat) && #[trigger] self@.edge(u, v) && v != start ==> bits_of(
                    *final(visited),
                ).contains(v as nat),
            final(loop_nodes)@.len() > old(loop_nodes)@.len() <==> exists|u: int|
                0 <= u < self@.size && bits_of(*final(visited)).contains(u as nat) && !bits_of(
                    *old(visited),
                ).contains(u as nat) && #[trigger] self@.edge(u, start as int),
            final(loop_nodes)@.len() == old(loop_nodes)@.len() + back_edges_from(
                self@,
                bits_of(*old(visited)),
                bits_of(*final(visited)),
                start as int,
                node as int,
                true,
            ).len(),
        decreases self@.size - bits_of(*old(visited)).len(),
    {
        let ghost b0 = bits_of(*visited);
        let ghost l0 = loop_nodes@;
        assert(b0 == bits_of(*old(visited)));
        assert(l0 == old(loop_nodes)@);
        bitset_insert(visited, node);
        proof {
            lemma_walk_single(self@, node as int);
            lemma_avoiding_single(self@, b0, node as int);
            lemma_below_len(bits_of(*visited), self@.size);
            assert(back_edges_from(self@, b0, bits_of(*visited), start as int, node as int, false)
                =~= Set::<int>::empty());
        }
        let mut i: usize = 0;
        while i < self.size
            invariant
                self.wf(),
                start < self@.size,
                node < self@.size,
                i <= self@.size,
                b0 == bits_of(*old(visited)),
                l0 == old(loop_nodes)@,
                loop_nodes@.len() == l0.len() + back_edges_from(
                    self@,
                    b0,
                    bits_of(*visited),
                    start as int,
                    node as int,
                    start < i,
                ).len(),
                node == start || b0.contains(start as nat),
                forall|u: int|
                    0 <= u < self@.size && #[trigger] bits_of(*visited).contains(u as nat)
                        && !b0.contains(u as nat) ==> self@.reaches_avoiding(b0, node as int, u),
                b0.finite(),
                !b0.contains(node as nat),
                forall|x: nat| #[trigger] b0.contains(x) ==> x < self@.size,
                bit_len(*visited) == self@.size,
                bits_of(*visited).finite(),
                forall|x: nat| #[trigger] bits_of(*visited).contains(x) ==> x < self@.size,
                b0.subset_of(bits_of(*visited)),
                bits_of(*visited).contains(node as nat),
                loop_nodes@.len() >= l0.len(),
                forall|k: int| 0 <= k < l0.len() ==> loop_nodes@[k] == l0[k],
                forall|k: int| l0.len() <= k < loop_nodes@.len() ==> #[trigger] loop_nodes@[k] == start,
                forall|u: int|
                    0 <= u < self@.size && #[trigger] bits_of(*visited).contains(u as nat)
                        && !b0.contains(u as nat) ==> self@.reaches(node as int, u),
                forall|u: int, v: int|
                    0 <= u < self@.size && u != node && bits_of(*visited).contains(u as nat)
                        && !b0.contains(u as nat) && #[trigger] self@.edge(u, v) && v != start
                        ==> bits_of(*visited).contains(v as nat),
                forall|j: int|
                    0 <= j < i && #[trigger] self@.edge(node as int, j) && j != start ==> bits_of(
                        *visited,
                    ).contains(j as nat),
                loop_nodes@.len() > l0.len() <==> exists|u: int|
                    0 <= u < self@.size && bits_of(*visited).contains(u as nat) && !b0.contains(
                        u as nat,
                    ) && #[trigger] self@.edge(u, start as int) && (u != node || start < i),
            decreases self@.size - i,
        {
            let ghost cur = bits_of(*visited);
            let ghost part = back_edges_from(self@, b0, cur, start as int, node as int, start < i);
            let ghost part1 = back_edges_from(
                self@,
                b0,
                cur,
                start as int,
                node as int,
                start < i + 1,
            );
            proof {
                lemma_below_len(cur, self@.size);
                lemma_below_finite(part, self@.size as int);
            }
            if self.contains(node, i) {
                if i == start {
                    loop_nodes.push(i);
                    proof {
                        assert(part1 =~= part.insert(node as int));
                        assert(!part.contains(node as int));
                    }
                } else if !bitset_contains(visited, i) {
                    let ghost b1 = bits_of(*visited);
                    let ghost l1 = loop_nodes@;
                    proof {
                        lemma_below_len(b1, self@.size);
                        vstd::set_lib::lemma_len_subset(b0.insert(node as nat), b1);
                    }
                    self.dfs_loop(start, i, visited, loop_nodes);
                    proof {
                        let m = self@;
                        let b2 = bits_of(*visited);
                        assert forall|u: int|
                            0 <= u < m.size && #[trigger] b2.contains(u as nat) && !b0.contains(
                                u as nat,
                            ) implies m.reaches(node as int, u) by {
                            if !b1.contains(u as nat) {
                                lemma_reach_prepend(m, node as int, i as int, u);
                            }
                        }
                        if loop_nodes@.len() > l1.len() {
                            let u = choose|u: int|
                                0 <= u < m.size && b2.contains(u as nat) && !b1.contains(u as nat)
                                    && #[trigger] m.edge(u, start as int);
                            assert(u != node);
                        }
                        if exists|u: int|
                            0 <= u < m.size && b2.contains(u as nat) && !b0.contains(u as nat)
                                && #[trigger] m.edge(u, start as int) && (u != node || start < i
                                + 1) {
                            let u = choose|u: int|
                                0 <= u < m.size && b2.contains(u as nat) && !b0.contains(u as nat)
                                    && #[trigger] m.edge(u, start as int) && (u != node || start < i
                                    + 1);
                            if !b1.contains(u as nat) {
                            } else {
                                assert(loop_nodes@.len() >= l1.len());
                            }
                        }
                        assert forall|u: int|
                            0 <= u < m.size && #[trigger] b2.contains(u as nat) && !b0.contains(
                                u as nat,
                            ) implies m.reaches_avoiding(b0, node as int, u) by {
                            if !b1.contains(u as nat) {
                                assert(m.reaches_avoiding(b1, i as int, u));
                                lemma_avoiding_prepend(m, b0, b1, node as int, i as int, u);
                            }
                        }
                        let child = back_edges_from(m, b1, b2, start as int, i as int, true);
                        let next = back_edges_from(m, b0, b2, start as int, node as int, start < i + 1);
                        lemma_below_finite(child, m.size as int);
                        assert(part.disjoint(child));
                        assert(next =~= part + child);
                        vstd::set_lib::lemma_set_disjoint_lens(part, child);
                    }
                } else {
                    proof {
                        assert(part1 =~= part);
                    }
                }
            } else {
                proof {
                    assert(part1 =~= part);
                }
            }
            i = i + 1;
        }
        proof {
            assert(start < i);
            let m = self@;
            let b = bits_of(*visited);
            assert forall|u: int, v: int|
                0 <= u < m.size && b.contains(u as nat) && !b0.contains(u as nat)
                    && #[trigger] m.edge(u, v) && v != start implies b.contains(v as nat) by {}
            assert forall|u: int| 0 <= u < m.size && m.reaches_avoiding(b0, node as int, u) implies b.contains(
                u as nat,
            ) && !b0.contains(u as nat) by {
                let p = choose|p: Seq<int>|
                    #[trigger] m.is_walk(p) && p[0] == node as int && p.last() == u && forall|t: int|
                        0 <= t < p.len() ==> !b0.contains((#[trigger] p[t]) as nat);
                lemma_white_walk(m, b0, b, start as int, p);
                assert(!b0.contains(p[p.len() - 1] as nat));
            }
        }
    }

    /// The traversals of `dags` that mention `node`, in order.
    pub fn matching_mdags(dags: Vec<MyDAG>, node: usize) -> (r: Vec<MyDAG>)
        ensures
            r@ == mentioning(dags@, node),
    {
        let ghost d0 = dags@;
        let mut dags = dags;
        let mut r: Vec<MyDAG> = Vec::new();
        let mut k: usize = 0;
        while k < dags.len()
            invariant
                dags@.len() == d0.len(),
                k <= d0.len(),
                forall|m: int| k <= m < d0.len() ==> #[trigger] dags@[m] == d0[m],
                r@ == mentioning(d0.subrange(0, k as int), node),
            decreases d0.len() - k,
        {
            let mut d = MyDAG::Single(0);
            dags.set_and_swap(k, &mut d);
            let keep = match &d {
                MyDAG::Path(p) => {
                    let mut any = false;
                    let mut e: usize = 0;
                    while e < p.len()
                        invariant
                            e <= p@.len(),
                            any <==> exists|m: int|
                                0 <= m < e && ((#[trigger] p@[m]).0 == node || p@[m].1 == node),
                        decreases p@.len() - e,
                    {
                        if p[e].0 == node || p[e].1 == node {
                            any = true;
                        }
                        e = e + 1;
                    }
                    any
                },
                MyDAG::Single(a) => *a == node,
            };
            proof {
                assert(d0.subrange(0, k + 1).drop_last() =~= d0.subrange(0, k as int));
                assert(d0.subrange(0, k + 1).last() == d);
            }
            if keep {
                r.push(d);
            }
            k = k + 1;
        }
        proof {
            assert(d0.subrange(0, d0.len() as int) =~= d0);
        }
        r
    }

    /// The paths of `dags` with a pair that has `node` at either end, in order.
    pub fn matching_dags(dags: Vec<Vec<(String, String)>>, node: &String) -> (r: Vec<
        Vec<(String, String)>,
    >)
        ensures
            r@ == paths_mentioning(dags@, node@),
    {
        let ghost d0 = dags@;
        let mut dags = dags;
        let mut r: Vec<Vec<(String, String)>> = Vec::new();
        let mut k: usize = 0;
        while k < dags.len()
            invariant
                dags@.len() == d0.len(),
                k <= d0.len(),
                forall|m: int| k <= m < d0.len() ==> #[trigger] dags@[m] == d0[m],
                r@ == paths_mentioning(d0.subrange(0, k as int), node@),
            decreases d0.len() - k,
        {
            let mut p: Vec<(String, String)> = Vec::new();
            dags.set_and_swap(k, &mut p);
            let mut any = false;
            let mut e: usize = 0;
            while e < p.len()
                invariant
                    e <= p@.len(),
                    any <==> exists|m: int|
                        0 <= m < e && ((#[trigger] p@[m]).0@ == node@ || p@[m].1@ == node@),
                decreases p@.len() - e,
            {
                if p[e].0 == *node || p[e].1 == *node {
                    any = true;
                }
                e = e + 1;
            }
            proof {
                assert(d0.subrange(0, k + 1).drop_last() =~= d0.subrange(0, k as int));
                assert(d0.subrange(0, k + 1).last() == p);
            }
            if any {
                r.push(p);
            }
            k = k + 1;
        }
        proof {
            assert(d0.subrange(0, d0.len() as int) =~= d0);
        }
        r
    }

    /// `md` with each index replaced by its node's label.
    fn to_human(&self, md: MyDAG) -> (r: HuDAG<String>)
        requires
            self.wf(),
            self@.in_range(md),
        ensures
            self@.human_of(md, r),
    {
        match md {
            MyDAG::Path(p) => {
                let mut v: Vec<(String, String)> = Vec::new();
                let mut k: usize = 0;
                while k < p.len()
                    invariant
                        self.wf(),
                        forall|m: int|
                            0 <= m < p@.len() ==> (#[trigger] p@[m]).0 < self@.size && p@[m].1
                                < self@.size,
                        k <= p@.len(),
                        v@.len() == k,
                        forall|m: int|
                            0 <= m < k ==> (#[trigger] v@[m]).0@ == self@.labels[p@[m].0 as int]
                                && v@[m].1@ == self@.labels[p@[m].1 as int],
                    decreases p@.len() - k,
                {
                    let (from, to) = p[k];
                    proof {
                        assert(p@[k as int] == (from, to));
                        assert(self.rn@.len() == self@.labels.len());
                    }
                    v.push((self.rn[from].clone(), self.rn[to].clone()));
                    k = k + 1;
                }
                HuDAG::Path(v)
            },
            MyDAG::Single(a) => {
                proof {
                    assert(self.rn@.len() == self@.labels.len());
                }
                HuDAG::Single(self.rn[a].clone())
            },
        }
    }

    /// The decomposition over node labels.
    pub fn hu_connected_dags(&self) -> (r: Vec<HuDAG<String>>)
        requires
            self.wf(),
        ensures
            self@.is_hu_decomposition(r@),
    {
        let dags = self.connected_dags();
        let ghost d0 = dags@;
        let mut dags = dags;
        let mut r: Vec<HuDAG<String>> = Vec::new();
        let mut k: usize = 0;
        while k < dags.len()
            invariant
                self.wf(),
                d0.len() == self@.starts().len(),
                forall|m: int|
                    0 <= m < d0.len() ==> self@.is_traversal(self@.starts()[m] as int, #[trigger] d0[m]),
                forall|m: int|
                    0 <= m < d0.len() ==> #[trigger] dag_view(d0[m]) == self@.traversal_view(
                        self@.starts()[m] as int,
                    ),
                dags@.len() == d0.len(),
                k <= d0.len(),
                forall|m: int| k <= m < d0.len() ==> #[trigger] dags@[m] == d0[m],
                r@.len() == k,
                forall|m: int|
                    0 <= m < k ==> self@.is_hu_traversal(self@.starts()[m] as int, #[trigger] r@[m]),
            decreases d0.len() - k,
        {
            let mut d = MyDAG::Single(0);
            dags.set_and_swap(k, &mut d);
            proof {
                assert(d == d0[k as int]);
                lemma_starts_below_exact(self@, self@.size as int);
                self.lemma_traversal_in_range(self@.starts()[k as int] as int, d);
            }
            let h = self.to_human(d);
            r.push(h);
            proof {
                assert(r@[k as int] == h);
                assert(self@.is_traversal(self@.starts()[k as int] as int, d) && dag_view(d)
                    == self@.traversal_view(self@.starts()[k as int] as int) && self@.human_of(d, h));
            }
            k = k + 1;
        }
        r
    }

    proof fn lemma_traversal_in_range(&self, root: int, d: MyDAG)
        requires
            self.wf(),
            self@.is_traversal(root, d),
            0 <= root < self@.size,
        ensures
            self@.in_range(d),
    {
        match d {
            MyDAG::Path(p) => {
                assert forall|k: int| 0 <= k < p@.len() implies (#[trigger] p@[k]).0 < self@.size
                    && p@[k].1 < self@.size by {
                    let (a, b) = p@[k];
                    assert(p@.contains((a, b)));
                }
            },
            MyDAG::Single(a) => {},
        }
    }

    /// The plain rendering of the decomposition.
    pub fn dot_notation(&self) -> (r: String)
        requires
            self.wf(),
        ensures
            exists|hs: Seq<HuDAG<String>>| self@.is_hu_decomposition(hs) && r@ == dot_text(hs),
    {
        let hu = self.hu_connected_dags();
        render_plain(&hu)
    }
    /// The traversals of `dags` that include `node` (found by label), each
    /// written over labels: a path as its (source, Some(target)) pairs, a
    /// single node as (node, None).
    pub fn path_including_node(&self, dags: &Vec<MyDAG>, node: &String) -> (r: Vec<
        Vec<(String, Option<String>)>,
    >)
        requires
            self.wf(),
            exists|k: int| 0 <= k < self@.size && self@.labels[k] == node@,
            forall|k: int| 0 <= k < dags@.len() ==> self@.in_range(#[trigger] dags@[k]),
        ensures
            r@.len() == self@.including(dags@, self@.position(node@), node@).len(),
            forall|j: int|
                0 <= j < r@.len() ==> self@.row_of(
                    dags@[self@.including(dags@, self@.position(node@), node@)[j]],
                    #[trigger] r@[j]@,
                ),
    {
        proof {
            assert(self.rn@.len() == self@.labels.len());
        }
        let mut node_node: usize = 0;
        while node_node < self.size && self.rn[node_node] != *node
            invariant
                self.wf(),
                self.rn@.len() == self@.size,
                node_node <= self@.size,
                exists|k: int| 0 <= k < self@.size && self@.labels[k] == node@,
                forall|j: int| 0 <= j < node_node ==> #[trigger] self@.labels[j] != node@,
            decreases self@.size - node_node,
        {
            node_node = node_node + 1;
        }
        let ghost idx = node_node as int;
        proof {
            if node_node == self.size {
                let k = choose|k: int| 0 <= k < self@.size && self@.labels[k] == node@;
                assert(self@.labels[k] != node@);
            }
            assert(self@.labels[idx] == node@);
            let c = self@.position(node@);
            if c < idx {
                assert(self@.labels[c] != node@);
            }
            if c > idx {
                assert(self@.labels[idx] != node@);
            }
            assert(c == idx);
        }
        let ghost sel = self@.including(dags@, idx, node@);
        let mut v: Vec<Vec<(String, Option<String>)>> = Vec::new();
        let mut k: usize = 0;
        while k < dags.len()
            invariant
                self.wf(),
                self.rn@.len() == self@.size,
                node_node < self@.size,
                idx == node_node,
                self@.labels[idx] == node@,
                forall|k: int| 0 <= k < dags@.len() ==> self@.in_range(#[trigger] dags@[k]),
                k <= dags@.len(),
                v@.len() == self@.including(dags@.subrange(0, k as int), idx, node@).len(),
                forall|j: int|
                    0 <= j < v@.len() ==> self@.row_of(
                        dags@[self@.including(dags@.subrange(0, k as int), idx, node@)[j]],
                        #[trigger] v@[j]@,
                    ),
            decreases dags@.len() - k,
        {
            let ghost before = v@;
            let ghost pre = dags@.subrange(0, k as int);
            let ghost cur = dags@.subrange(0, k + 1);
            proof {
                assert(cur.drop_last() =~= pre);
                assert(cur.last() == dags@[k as int]);
                assert(self@.in_range(dags@[k as int]));
            }
            match &dags[k] {
                MyDAG::Path(p) => {
                    let mut any = false;
                    let mut e: usize = 0;
                    while e < p.len()
                        invariant
                            e <= p@.len(),
                            any <==> exists|m: int|
                                0 <= m < e && ((#[trigger] p@[m]).0 == node_node || p@[m].1
                                    == node_node),
                        decreases p@.len() - e,
                    {
                        if p[e].0 == node_node || p[e].1 == node_node {
                            any = true;
                        }
                        e = e + 1;
                    }
                    if any {
                        let mut v2: Vec<(String, Option<String>)> = Vec::new();
                        let mut e: usize = 0;
                        while e < p.len()
                            invariant
                                self.wf(),
                                self.rn@.len() == self@.size,
                                forall|m: int|
                                    0 <= m < p@.len() ==> (#[trigger] p@[m]).0 < self@.size
                                        && p@[m].1 < self@.size,
                                e <= p@.len(),
                                v2@.len() == e,
                                forall|m: int|
                                    0 <= m < e ==> (#[trigger] v2@[m]).0@ == self@.labels[p@[m].0 as int]
                                        && v2@[m].1 is Some && v2@[m].1->Some_0@ == self@.labels[p@[m].1 as int],
                            decreases p@.len() - e,
                        {
                            let (from, to) = p[e];
                            proof {
                                assert(p@[e as int] == (from, to));
                            }
                            v2.push((self.rn[from].clone(), Some(self.rn[to].clone())));
                            e = e + 1;
                        }
                        v.push(v2);
                    }
                },
                MyDAG::Single(a) => {
                    if self.rn[*a] == *node {
                        let mut v2: Vec<(String, Option<String>)> = Vec::new();
                        v2.push((self.rn[*a].clone(), None));
                        v.push(v2);
                    }
                },
            }
            proof {
                let s_pre = self@.including(pre, idx, node@);
                let s_cur = self@.including(cur, idx, node@);
                assert forall|j: int|
                    0 <= j < v@.len() implies self@.row_of(
                    dags@[s_cur[j]],
                    #[trigger] v@[j]@,
                ) by {
                    if j < before.len() {
                        assert(v@[j] == before[j]);
                        assert(s_cur[j] == s_pre[j]);
                    }
                }
            }
            k = k + 1;
        }
        proof {
            assert(dags@.subrange(0, dags@.len() as int) =~= dags@);
        }
        v
    }
}

} // verus!
