//! Incremental building of a multigraph from (node, successors) records, and
//! the analyses of its adjacency matrix.
use crate::adjac::{dag_view, has_cycle_seen_first, Adjac, AdjacView, HuDAG, MyDAG};
use crate::storage::{
    graph_add_edge, graph_add_node, graph_edge_count, graph_edges, graph_new, graph_node_count,
    graph_nodes,
    graph_update_edge, INDEX_LIMIT,
};
use petgraph::graph::Graph;
use vstd::prelude::*;

verus! {

/// A record of a node and its successors, as handed to `Multidigraph::add_paths`.
pub trait NodePathTrait: Sized {
    spec fn node_label(&self) -> Seq<char>;

    spec fn successor_labels(&self) -> Seq<Seq<char>>;

    fn new(node: String, edges: Vec<String>) -> (r: Self)
        ensures
            r.node_label() == node@,
            r.successor_labels() == edges@.map_values(|e: String| e@),
    ;

    fn get_node(&self) -> (r: String)
        ensures
            r@ == self.node_label(),
    ;

    fn get_edges(&self) -> (r: Vec<String>)
        ensures
            r@.map_values(|e: String| e@) == self.successor_labels(),
    ;
}

/// A node label and the labels of its successors.
pub struct NodePath {
    pub node: String,
    pub edges: Vec<String>,
}

impl NodePath {
    pub fn new(node: String, edges: Vec<String>) -> (r: NodePath)
        ensures
            r.node == node,
            r.edges == edges,
    {
        Self { node, edges }
    }
}

fn clone_labels(v: &Vec<String>) -> (r: Vec<String>)
    ensures
        r@ == v@,
{
    let mut r: Vec<String> = Vec::new();
    let mut k: usize = 0;
    while k < v.len()
        invariant
            k <= v@.len(),
            r@ == v@.subrange(0, k as int),
        decreases v@.len() - k,
    {
        r.push(v[k].clone());
        proof {
            assert(r@ =~= v@.subrange(0, k + 1));
        }
        k = k + 1;
    }
    proof {
        assert(v@.subrange(0, v@.len() as int) =~= v@);
    }
    r
}

impl NodePathTrait for NodePath {
    open spec fn node_label(&self) -> Seq<char> {
        self.node@
    }

    open spec fn successor_labels(&self) -> Seq<Seq<char>> {
        self.edges@.map_values(|e: String| e@)
    }

    fn new(node: String, edges: Vec<String>) -> (r: Self) {
        Self { node, edges }
    }

    fn get_node(&self) -> (r: String) {
        self.node.clone()
    }

    fn get_edges(&self) -> (r: Vec<String>) {
        clone_labels(&self.edges)
    }
}

/// `ns` with `l` appended unless it is there already.
pub open spec fn add_label(ns: Seq<Seq<char>>, l: Seq<char>) -> Seq<Seq<char>> {
    if ns.contains(l) {
        ns
    } else {
        ns.push(l)
    }
}

/// `add_label` with each of `ls` in turn.
pub open spec fn add_labels(ns: Seq<Seq<char>>, ls: Seq<Seq<char>>) -> Seq<Seq<char>>
    decreases ls.len(),
{
    if ls.len() == 0 {
        ns
    } else {
        add_label(add_labels(ns, ls.drop_last()), ls.last())
    }
}

/// The node labels after the records `recs`, each its node then its
/// successors, have been added in turn to `ns`.
pub open spec fn labels_after(ns: Seq<Seq<char>>, recs: Seq<(Seq<char>, Seq<Seq<char>>)>) -> Seq<
    Seq<char>,
>
    decreases recs.len(),
{
    if recs.len() == 0 {
        ns
    } else {
        add_labels(add_label(labels_after(ns, recs.drop_last()), recs.last().0), recs.last().1)
    }
}

/// The number of successors over all of `recs`.
pub open spec fn total_edges(recs: Seq<(Seq<char>, Seq<Seq<char>>)>) -> nat
    decreases recs.len(),
{
    if recs.len() == 0 {
        0
    } else {
        total_edges(recs.drop_last()) + recs.last().1.len()
    }
}

/// Some record has node `a` and successor `b`.
pub open spec fn edge_by(recs: Seq<(Seq<char>, Seq<Seq<char>>)>, a: Seq<char>, b: Seq<char>) -> bool {
    exists|r: int, e: int|
        0 <= r < recs.len() && 0 <= e < recs[r].1.len() && recs[r].0 == a && #[trigger] recs[r].1[e]
            == b
}

proof fn lemma_total_prefix(recs: Seq<(Seq<char>, Seq<Seq<char>>)>, k: int)
    requires
        0 <= k <= recs.len(),
    ensures
        total_edges(recs.subrange(0, k)) <= total_edges(recs),
    decreases recs.len(),
{
    if k == recs.len() {
        assert(recs.subrange(0, k) =~= recs);
    } else {
        lemma_total_prefix(recs.drop_last(), k);
        assert(recs.drop_last().subrange(0, k) =~= recs.subrange(0, k));
    }
}

proof fn lemma_push_contains<A>(s: Seq<A>, p: A, q: A)
    ensures
        s.push(p).contains(q) <==> s.contains(q) || q == p,
{
    if s.contains(q) {
        let k = choose|k: int| 0 <= k < s.len() && s[k] == q;
        assert(s.push(p)[k] == q);
    }
    if q == p {
        assert(s.push(p)[s.len() as int] == p);
    }
    if s.push(p).contains(q) {
        let k = choose|k: int| 0 <= k < s.len() + 1 && s.push(p)[k] == q;
        if k < s.len() {
            assert(s[k] == q);
        }
    }
}

/// No label occurs twice.
pub open spec fn labels_unique(ns: Seq<Seq<char>>) -> bool {
    forall|i: int, j: int| 0 <= i < ns.len() && 0 <= j < ns.len() && ns[i] == ns[j] ==> i == j
}

/// The storage holds at least one edge `i -> j`.
pub open spec fn has_edge(g: Graph<String, ()>, i: int, j: int) -> bool {
    graph_edges(g).contains((i as nat, j as nat))
}

/// The records as (node, successors) labels.
pub open spec fn records<P: NodePathTrait>(ps: Seq<&P>) -> Seq<(Seq<char>, Seq<Seq<char>>)> {
    ps.map_values(|p: &P| (p.node_label(), p.successor_labels()))
}

/// A multigraph over `String` labels, built from records, with its adjacency
/// matrix once that is built.
pub struct Multidigraph {
    pub graph: Graph<String, ()>,
    /// The node labels by index, as the storage holds them.
    pub nodes: Vec<String>,
    /// The matrix, from the last `build_adjac`.
    pub adjac: Option<Adjac>,
    pub connected_dags: Option<Vec<MyDAG>>,
    pub need_remove: Option<Vec<(String, Vec<String>)>>,
}

impl Multidigraph {
    /// The node labels by index.
    pub open spec fn labels(&self) -> Seq<Seq<char>> {
        self.nodes@.map_values(|s: String| s@)
    }

    /// The storage holds the labels of `nodes`, by index, each once, and a
    /// built matrix is well formed.
    pub open spec fn wf(&self) -> bool {
        &&& graph_nodes(self.graph) == self.labels()
        &&& labels_unique(self.labels())
        &&& self.is_built() ==> self.adjac->Some_0.wf()
    }

    pub open spec fn is_built(&self) -> bool {
        self.adjac is Some
    }

    /// The matrix, once built.
    pub open spec fn matrix(&self) -> AdjacView {
        self.adjac->Some_0@
    }

    /// The decomposition, once built.
    pub open spec fn decomposition(&self) -> Seq<MyDAG> {
        self.connected_dags->Some_0@
    }

    pub fn new() -> (r: Multidigraph)
        ensures
            r.wf(),
            graph_nodes(r.graph) == Seq::<Seq<char>>::empty(),
            graph_edges(r.graph) == Seq::<(nat, nat)>::empty(),
            r.nodes@ == Seq::<String>::empty(),
            r.adjac is None,
            r.connected_dags is None,
            r.need_remove is None,
    {
        let r = Multidigraph {
            graph: graph_new(),
            nodes: Vec::new(),
            adjac: None,
            connected_dags: None,
            need_remove: None,
        };
        proof {
            assert(r.labels() =~= Seq::<Seq<char>>::empty());
        }
        r
    }

    /// The number of nodes in the storage.
    pub fn node_count(&self) -> (r: usize)
        ensures
            r == graph_nodes(self.graph).len(),
    {
        graph_node_count(&self.graph)
    }

    /// The number of edge records in the storage, parallel ones included.
    pub fn edge_count(&self) -> (r: usize)
        ensures
            r == graph_edges(self.graph).len(),
    {
        graph_edge_count(&self.graph)
    }

    /// The index of the node labelled `l`, if any.
    fn index_of(&self, l: &String) -> (r: Option<usize>)
        requires
            self.wf(),
        ensures
            r is Some <==> self.labels().contains(l@),
            r is Some ==> r->Some_0 < self.labels().len() && self.labels()[r->Some_0 as int] == l@,
    {
        let mut k: usize = 0;
        while k < self.nodes.len()
            invariant
                k <= self.nodes@.len(),
                forall|m: int| 0 <= m < k ==> #[trigger] self.labels()[m] != l@,
            decreases self.nodes@.len() - k,
        {
            if self.nodes[k] == *l {
                proof {
                    assert(self.labels()[k as int] == l@);
                }
                return Some(k);
            }
            k = k + 1;
        }
        proof {
            if self.labels().contains(l@) {
                let m = choose|m: int| 0 <= m < self.labels().len() && self.labels()[m] == l@;
                assert(self.labels()[m] != l@);
            }
        }
        None
    }

    /// The index of the node labelled `l`, added first where there is none;
    /// and whether it was there already.
    fn ensure_node(&mut self, l: String) -> (r: (usize, bool))
        requires
            old(self).wf(),
            old(self).labels().len() < INDEX_LIMIT,
        ensures
            final(self).wf(),
            final(self).adjac == old(self).adjac,
            final(self).connected_dags == old(self).connected_dags,
            final(self).need_remove == old(self).need_remove,
            final(self).labels() == add_label(old(self).labels(), l@),
            graph_edges(final(self).graph) == graph_edges(old(self).graph),
            r.0 < final(self).labels().len(),
            final(self).labels()[r.0 as int] == l@,
            r.1 == old(self).labels().contains(l@),
    {
        match self.index_of(&l) {
            Some(i) => (i, true),
            None => {
                let ghost before = self.labels();
                let i = graph_add_node(&mut self.graph, l.clone());
                self.nodes.push(l);
                proof {
                    assert(self.labels() =~= before.push(l@));
                    assert(labels_unique(self.labels()));
                }
                (i, false)
            },
        }
    }

    /// Adds each record in turn: its node where it is new, then each successor
    /// where it is new, and an edge from the node to each successor. A record
    /// whose node was there already gets a further edge even to a successor it
    /// had one to; otherwise no second edge between two nodes is added.
    pub fn add_paths<P: NodePathTrait>(&mut self, node_path: Vec<&P>)
        requires
            old(self).wf(),
            old(self).labels().len() + node_path@.len() + total_edges(records(node_path@))
                < INDEX_LIMIT,
            graph_edges(old(self).graph).len() + total_edges(records(node_path@)) < INDEX_LIMIT,
        ensures
            final(self).wf(),
            final(self).adjac == old(self).adjac,
            final(self).connected_dags == old(self).connected_dags,
            final(self).need_remove == old(self).need_remove,
            final(self).labels() == labels_after(old(self).labels(), records(node_path@)),
            graph_nodes(final(self).graph) == labels_after(
                graph_nodes(old(self).graph),
                records(node_path@),
            ),
            graph_edges(final(self).graph).len() <= graph_edges(old(self).graph).len()
                + total_edges(records(node_path@)),
            forall|i: int, j: int|
                0 <= i < final(self).labels().len() && 0 <= j < final(self).labels().len() ==> (
                #[trigger] has_edge(final(self).graph, i, j) <==> has_edge(old(self).graph, i, j)
                    || exists|r: int, e: int|
                    0 <= r < node_path@.len() && 0 <= e < node_path@[r].successor_labels().len()
                        && node_path@[r].node_label() == final(self).labels()[i]
                        && #[trigger] node_path@[r].successor_labels()[e] == final(self).labels()[j]),
    {
        let ghost recs = records(node_path@);
        let ghost a0 = self.adjac;
        let ghost c0 = self.connected_dags;
        let ghost nr0 = self.need_remove;
        let ghost e0 = graph_edges(self.graph).len();
        let ghost g0 = self.graph;
        let ghost n0 = self.labels();
        let ghost big_t = total_edges(recs);
        let mut k: usize = 0;
        while k < node_path.len()
            invariant
                self.wf(),
                self.adjac == a0,
                self.connected_dags == c0,
                self.need_remove == nr0,
                graph_edges(self.graph).len() <= e0 + total_edges(recs.subrange(0, k as int)),
                recs == records(node_path@),
                big_t == total_edges(recs),
                k <= node_path@.len(),
                self.labels() == labels_after(n0, recs.subrange(0, k as int)),
                total_edges(recs.subrange(0, k as int)) <= big_t,
                self.labels().len() + (node_path@.len() - k) + (big_t - total_edges(
                    recs.subrange(0, k as int),
                )) < INDEX_LIMIT,
                graph_edges(self.graph).len() + (big_t - total_edges(recs.subrange(0, k as int)))
                    < INDEX_LIMIT,
                forall|a: Seq<char>, b: Seq<char>|
                    #[trigger] edge_by(recs.subrange(0, k as int), a, b) ==> self.labels().contains(a)
                        && self.labels().contains(b),
                forall|x: int, y: int|
                    0 <= x && 0 <= y ==> (#[trigger] has_edge(self.graph, x, y) <==> has_edge(
                        g0,
                        x,
                        y,
                    ) || (x < self.labels().len() && y < self.labels().len() && edge_by(
                        recs.subrange(0, k as int),
                        self.labels()[x],
                        self.labels()[y],
                    ))),
            decreases node_path@.len() - k,
        {
            let ghost sub = recs.subrange(0, k as int);
            let ghost lk = self.labels();
            proof {
                lemma_total_prefix(recs, k as int + 1);
                assert(recs.subrange(0, k + 1).drop_last() =~= sub);
                assert(recs.subrange(0, k + 1).last() == recs[k as int]);
                assert(total_edges(recs.subrange(0, k + 1)) == total_edges(sub)
                    + recs[k as int].1.len());
            }
            let rec = node_path[k];
            let name = rec.get_node();
            let ghost g_before = self.graph;
            let (i, existed) = self.ensure_node(name);
            let edges = rec.get_edges();
            let ghost rname = rec.node_label();
            let ghost rsucc = rec.successor_labels();
            let ghost l1 = self.labels();
            proof {
                assert(recs[k as int] == (rname, rsucc));
                assert(edges@.len() == rsucc.len());
                assert forall|a: Seq<char>, b: Seq<char>|
                    #[trigger] edge_by(sub, a, b) implies l1.contains(a) && l1.contains(b) by {
                    let p = choose|p: int| 0 <= p < lk.len() && lk[p] == a;
                    let q = choose|q: int| 0 <= q < lk.len() && lk[q] == b;
                    assert(l1[p] == a && l1[q] == b);
                }
                assert forall|x: int, y: int|
                    0 <= x && 0 <= y implies (#[trigger] has_edge(self.graph, x, y) <==> has_edge(
                        g0,
                        x,
                        y,
                    ) || (x < l1.len() && y < l1.len() && (edge_by(sub, l1[x], l1[y]) || (l1[x]
                        == rname && exists|m: int| 0 <= m < 0 && #[trigger] rsucc[m] == l1[y])))) by {
                    assert(has_edge(g_before, x, y) == has_edge(self.graph, x, y));
                    if x < lk.len() && y < lk.len() {
                        assert(l1[x] == lk[x] && l1[y] == lk[y]);
                    }
                    if x < l1.len() && y < l1.len() && edge_by(sub, l1[x], l1[y]) {
                        if x >= lk.len() {
                            assert(!lk.contains(l1[x]));
                        }
                        if y >= lk.len() {
                            assert(!lk.contains(l1[y]));
                        }
                    }
                }
            }
            let mut e: usize = 0;
            while e < edges.len()
                invariant
                    self.wf(),
                    self.adjac == a0,
                    self.connected_dags == c0,
                    self.need_remove == nr0,
                    graph_edges(self.graph).len() <= e0 + total_edges(sub) + e,
                    e <= edges@.len(),
                    k < node_path@.len(),
                    edges@.map_values(|e: String| e@) == rsucc,
                    edges@.len() == rsucc.len(),
                    i < l1.len(),
                    l1[i as int] == rname,
                    l1.len() <= self.labels().len(),
                    forall|m: int| 0 <= m < l1.len() ==> #[trigger] self.labels()[m] == l1[m],
                    self.labels() == add_labels(l1, rsucc.subrange(0, e as int)),
                    self.labels().len() + (node_path@.len() - k - 1) + (big_t - total_edges(sub)
                        - e) < INDEX_LIMIT,
                    graph_edges(self.graph).len() + (big_t - total_edges(sub) - e) < INDEX_LIMIT,
                    total_edges(sub) + rsucc.len() <= big_t,
                    forall|a: Seq<char>, b: Seq<char>|
                        #[trigger] edge_by(sub, a, b) ==> self.labels().contains(a)
                            && self.labels().contains(b),
                    forall|m: int| 0 <= m < e ==> self.labels().contains(#[trigger] rsucc[m]),
                    forall|x: int, y: int|
                        0 <= x && 0 <= y ==> (#[trigger] has_edge(self.graph, x, y) <==> has_edge(
                            g0,
                            x,
                            y,
                        ) || (x < self.labels().len() && y < self.labels().len() && (edge_by(
                            sub,
                            self.labels()[x],
                            self.labels()[y],
                        ) || (self.labels()[x] == rname && exists|m: int|
                            0 <= m < e && #[trigger] rsucc[m] == self.labels()[y])))),
                decreases edges@.len() - e,
            {
                let ghost la = self.labels();
                let ghost ga = self.graph;
                proof {
                    assert(big_t - total_edges(sub) - e >= 1);
                    assert(la.len() < INDEX_LIMIT);
                    assert(edges@.map_values(|e: String| e@)[e as int] == edges@[e as int]@);
                }
                let (j, known) = self.ensure_node(edges[e].clone());
                let ghost lb = self.labels();
                proof {
                    assert(rsucc[e as int] == edges@[e as int]@);
                    assert(lb[i as int] == la[i as int]);
                }
                if existed && known {
                    graph_add_edge(&mut self.graph, i, j);
                } else {
                    graph_update_edge(&mut self.graph, i, j);
                }
                proof {
                    assert forall|x: int, y: int| 0 <= x && 0 <= y implies has_edge(self.graph, x, y)
                        <==> has_edge(ga, x, y) || (x == i && y == j) by {
                        lemma_push_contains(graph_edges(ga), (i as nat, j as nat), (x as nat, y as nat));
                    }
                    assert(rsucc.subrange(0, e + 1).drop_last() =~= rsucc.subrange(0, e as int));
                    assert forall|c: Seq<char>| la.contains(c) implies lb.contains(c) by {
                        let p = choose|p: int| 0 <= p < la.len() && la[p] == c;
                        assert(lb[p] == c);
                    }
                    assert(lb[j as int] == rsucc[e as int]);
                    assert forall|m: int| 0 <= m < e + 1 implies lb.contains(#[trigger] rsucc[m]) by {
                        if m < e {
                            assert(la.contains(rsucc[m]));
                        }
                    }
                    assert forall|a: Seq<char>, b: Seq<char>|
                        #[trigger] edge_by(sub, a, b) implies lb.contains(a) && lb.contains(b) by {
                        assert(la.contains(a) && la.contains(b));
                    }
                    assert(rsucc.subrange(0, e + 1).last() == rsucc[e as int]);
                    assert forall|x: int, y: int|
                        0 <= x && 0 <= y implies (#[trigger] has_edge(self.graph, x, y) <==> has_edge(
                            g0,
                            x,
                            y,
                        ) || (x < lb.len() && y < lb.len() && (edge_by(sub, lb[x], lb[y]) || (lb[x]
                            == rname && exists|m: int|
                            0 <= m < e + 1 && #[trigger] rsucc[m] == lb[y])))) by {
                        let old_side = x < la.len() && y < la.len() && (edge_by(sub, la[x], la[y])
                            || (la[x] == rname && exists|m: int|
                            0 <= m < e && #[trigger] rsucc[m] == la[y]));
                        assert(has_edge(ga, x, y) <==> has_edge(g0, x, y) || old_side);
                        if x < la.len() && y < la.len() {
                            assert(lb[x] == la[x] && lb[y] == la[y]);
                        }
                        if x >= la.len() && x < lb.len() {
                            assert(lb[x] == edges@[e as int]@);
                            assert(!la.contains(lb[x]));
                            if edge_by(sub, lb[x], lb[y]) {
                                assert(la.contains(lb[x]));
                            }
                            if lb[x] == rname {
                                assert(la[i as int] == rname);
                            }
                        }
                        if y >= la.len() && y < lb.len() {
                            assert(lb[y] == edges@[e as int]@);
                            assert(!la.contains(lb[y]));
                            if edge_by(sub, lb[x], lb[y]) {
                                assert(la.contains(lb[y]));
                            }
                            if exists|m: int| 0 <= m < e && #[trigger] rsucc[m] == lb[y] {
                                let m = choose|m: int| 0 <= m < e && #[trigger] rsucc[m] == lb[y];
                                assert(la.contains(rsucc[m]));
                            }
                        }
                        if x == i as int && y == j as int {
                            assert(lb[y] == rsucc[e as int]);
                        }
                        if x < lb.len() && y < lb.len() && lb[x] == rname && rsucc[e as int] == lb[y] {
                            assert(lb[i as int] == rname);
                            assert(x == i as int);
                            assert(y == j as int);
                        }
                    }
                }
                e = e + 1;
            }
            proof {
                let sub1 = recs.subrange(0, k + 1);
                assert(rsucc.subrange(0, rsucc.len() as int) =~= rsucc);
                assert(sub1[k as int] == (rname, rsucc));
                assert forall|a: Seq<char>, b: Seq<char>|
                    edge_by(sub1, a, b) <==> edge_by(sub, a, b) || (a == rname && rsucc.contains(b)) by {
                    if edge_by(sub1, a, b) {
                        let (r, m) = choose|r: int, m: int|
                            0 <= r < sub1.len() && 0 <= m < sub1[r].1.len() && sub1[r].0 == a
                                && #[trigger] sub1[r].1[m] == b;
                        if r < k {
                            assert(sub[r] == sub1[r]);
                            assert(edge_by(sub, a, b));
                        } else {
                            assert(rsucc[m] == b);
                        }
                    }
                    if edge_by(sub, a, b) {
                        let (r, m) = choose|r: int, m: int|
                            0 <= r < sub.len() && 0 <= m < sub[r].1.len() && sub[r].0 == a
                                && #[trigger] sub[r].1[m] == b;
                        assert(sub1[r] == sub[r]);
                        assert(sub1[r].1[m] == b);
                    }
                    if a == rname && rsucc.contains(b) {
                        let m = choose|m: int| 0 <= m < rsucc.len() && rsucc[m] == b;
                        assert(sub1[k as int].1[m] == b);
                    }
                }
                assert forall|a: Seq<char>, b: Seq<char>|
                    #[trigger] edge_by(sub1, a, b) implies self.labels().contains(a)
                        && self.labels().contains(b) by {
                    if !edge_by(sub, a, b) {
                        assert(self.labels()[i as int] == rname);
                        let m = choose|m: int| 0 <= m < rsucc.len() && rsucc[m] == b;
                        assert(self.labels().contains(rsucc[m]));
                    }
                }
                assert forall|x: int, y: int|
                    0 <= x && 0 <= y implies (#[trigger] has_edge(self.graph, x, y) <==> has_edge(
                        g0,
                        x,
                        y,
                    ) || (x < self.labels().len() && y < self.labels().len() && edge_by(
                        sub1,
                        self.labels()[x],
                        self.labels()[y],
                    ))) by {
                    if x < self.labels().len() && y < self.labels().len() {
                        let b = self.labels()[y];
                        if rsucc.contains(b) {
                            let m = choose|m: int| 0 <= m < rsucc.len() && rsucc[m] == b;
                            assert(rsucc[m] == b);
                        }
                    }
                }
            }
            k = k + 1;
        }
        proof {
            assert(recs.subrange(0, node_path@.len() as int) =~= recs);
            assert forall|i: int, j: int|
                0 <= i < self.labels().len() && 0 <= j < self.labels().len() implies (
                #[trigger] has_edge(self.graph, i, j) <==> has_edge(g0, i, j) || exists|
                    r: int,
                    e: int,
                |
                    0 <= r < node_path@.len() && 0 <= e < node_path@[r].successor_labels().len()
                        && node_path@[r].node_label() == self.labels()[i]
                        && #[trigger] node_path@[r].successor_labels()[e] == self.labels()[j]) by {
                if edge_by(recs, self.labels()[i], self.labels()[j]) {
                    let (r, e) = choose|r: int, e: int|
                        0 <= r < recs.len() && 0 <= e < recs[r].1.len() && recs[r].0
                            == self.labels()[i] && #[trigger] recs[r].1[e] == self.labels()[j];
                    assert(recs[r] == (node_path@[r].node_label(), node_path@[r].successor_labels()));
                }
                if exists|r: int, e: int|
                    0 <= r < node_path@.len() && 0 <= e < node_path@[r].successor_labels().len()
                        && node_path@[r].node_label() == self.labels()[i]
                        && #[trigger] node_path@[r].successor_labels()[e] == self.labels()[j] {
                    let (r, e) = choose|r: int, e: int|
                        0 <= r < node_path@.len() && 0 <= e < node_path@[r].successor_labels().len()
                            && node_path@[r].node_label() == self.labels()[i]
                            && #[trigger] node_path@[r].successor_labels()[e] == self.labels()[j];
                    assert(recs[r] == (node_path@[r].node_label(), node_path@[r].successor_labels()));
                    assert(recs[r].1[e] == self.labels()[j]);
                }
            }
        }
    }
    /// Builds the matrix from the storage as it stands, and the decomposition.
    pub fn build_adjac(&mut self)
        requires
            old(self).wf(),
            old(self).labels().len() * old(self).labels().len() <= usize::MAX,
        ensures
            final(self).wf(),
            final(self).is_built(),
            final(self).graph == old(self).graph,
            final(self).nodes == old(self).nodes,
            final(self).need_remove == old(self).need_remove,
            final(self).matrix().size == old(self).labels().len(),
            final(self).matrix().labels == old(self).labels(),
            forall|i: int, j: int|
                #[trigger] final(self).matrix().edge(i, j) <==> 0 <= i < old(self).labels().len()
                    && 0 <= j < old(self).labels().len() && has_edge(old(self).graph, i, j),
            final(self).connected_dags is Some,
            final(self).decomposition().len() == final(self).matrix().starts().len(),
            forall|k: int|
                0 <= k < final(self).decomposition().len() ==> final(self).matrix().is_traversal(
                    final(self).matrix().starts()[k] as int,
                    #[trigger] final(self).decomposition()[k],
                ),
            forall|k: int|
                0 <= k < final(self).decomposition().len() ==> #[trigger] dag_view(
                    final(self).decomposition()[k],
                ) == final(self).matrix().traversal_view(final(self).matrix().starts()[k] as int),
    {
        let a = Adjac::new_from_graph(&self.graph);
        let dags = a.connected_dags();
        self.adjac = Some(a);
        self.connected_dags = Some(dags);
    }

    /// Builds the matrix and the decomposition where the node count squared
    /// fits in `usize`; otherwise leaves everything as it is and says so.
    pub fn try_build_adjac(&mut self) -> (r: bool)
        requires
            old(self).wf(),
        ensures
            r == (old(self).labels().len() * old(self).labels().len() <= usize::MAX),
            !r ==> *final(self) == *old(self),
            final(self).wf(),
            final(self).graph == old(self).graph,
            final(self).nodes == old(self).nodes,
            final(self).need_remove == old(self).need_remove,
            r ==> final(self).is_built() && final(self).connected_dags is Some
                && final(self).matrix().size == old(self).labels().len()
                && final(self).matrix().labels == old(self).labels(),
            r ==> forall|i: int, j: int|
                #[trigger] final(self).matrix().edge(i, j) <==> 0 <= i < old(self).labels().len()
                    && 0 <= j < old(self).labels().len() && has_edge(old(self).graph, i, j),
            r ==> final(self).decomposition().len() == final(self).matrix().starts().len(),
            r ==> forall|k: int|
                0 <= k < final(self).decomposition().len() ==> #[trigger] dag_view(
                    final(self).decomposition()[k],
                ) == final(self).matrix().traversal_view(final(self).matrix().starts()[k] as int),
    {
        let n = self.node_count();
        if n > 0 && n > usize::MAX / n {
            proof {
                assert(n * n > usize::MAX) by (nonlinear_arith)
                    requires
                        n > 0,
                        n > usize::MAX / n,
                ;
            }
            return false;
        }
        proof {
            assert(n * n <= usize::MAX) by (nonlinear_arith)
                requires
                    n == 0 || n <= usize::MAX / n,
            ;
        }
        self.build_adjac();
        true
    }

    /// The cycle report of the matrix.
    pub fn check_loops(&self) -> (r: Vec<Vec<String>>)
        requires
            self.wf(),
            self.is_built(),
        ensures
            forall|g: int|
                0 <= g < r@.len() ==> (#[trigger] r@[g])@.len() > 0 && exists|i: int|
                    0 <= i < self.matrix().size && self.matrix().on_cycle(i) && forall|e: int|
                        0 <= e < r@[g]@.len() ==> (#[trigger] r@[g]@[e])@ == self.matrix().labels[i],
            r@.len() == self.matrix().touch_report().len(),
            forall|g: int|
                0 <= g < r@.len() ==> (#[trigger] r@[g])@.len() == self.matrix().touch_report()[g].1
                    && forall|e: int|
                    0 <= e < r@[g]@.len() ==> (#[trigger] r@[g]@[e])@
                        == self.matrix().labels[self.matrix().touch_report()[g].0],
            r@.len() > 0 <==> has_cycle_seen_first(self.matrix()),
    {
        match &self.adjac {
            Some(a) => {
                proof {
                    assert(a@ == self.matrix());
                }
                a.check_loops()
            },
            None => Vec::new(),
        }
    }

    /// Whether the cycle report is nonempty.
    pub fn has_loop(&self) -> (r: bool)
        requires
            self.wf(),
            self.is_built(),
        ensures
            r == (self.matrix().touch_report().len() > 0),
            r == has_cycle_seen_first(self.matrix()),
    {
        let loops = self.check_loops();
        loops.len() > 0
    }

    /// The decomposition over node labels.
    pub fn hu_connected_dags(&self) -> (r: Vec<HuDAG<String>>)
        requires
            self.wf(),
            self.is_built(),
        ensures
            self.matrix().is_hu_decomposition(r@),
    {
        match &self.adjac {
            Some(a) => a.hu_connected_dags(),
            None => Vec::new(),
        }
    }
}

} // verus!
