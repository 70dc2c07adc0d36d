//! Rendering of a decomposition as DOT text, with per-node attributes and
//! named clusters.
//!
//! Names and values are written as they are: no character is escaped, so a
//! label holding a quote or DOT syntax yields malformed text.
use crate::adjac::HuDAG;
use vstd::prelude::*;

verus! {

/// `  a -> b;` and a line break.
pub open spec fn edge_line(a: Seq<char>, b: Seq<char>) -> Seq<char> {
    "  "@ + a + " -> "@ + b + ";\n"@
}

/// `  a;` and a line break.
pub open spec fn node_line(a: Seq<char>) -> Seq<char> {
    "  "@ + a + ";\n"@
}

/// One edge statement for each pair of `p`, in order.
pub open spec fn path_text(p: Seq<(String, String)>) -> Seq<char>
    decreases p.len(),
{
    if p.len() == 0 {
        Seq::empty()
    } else {
        path_text(p.drop_last()) + edge_line(p.last().0@, p.last().1@)
    }
}

pub open spec fn dag_text(h: HuDAG<String>) -> Seq<char> {
    match h {
        HuDAG::Path(p) => path_text(p@),
        HuDAG::Single(a) => node_line(a@),
    }
}

/// The statements of each traversal, in order.
pub open spec fn dags_text(hs: Seq<HuDAG<String>>) -> Seq<char>
    decreases hs.len(),
{
    if hs.len() == 0 {
        Seq::empty()
    } else {
        dags_text(hs.drop_last()) + dag_text(hs.last())
    }
}

pub open spec fn header() -> Seq<char> {
    "digraph G {\n"@
}

pub open spec fn footer() -> Seq<char> {
    "}\n"@
}

/// The plain rendering of a decomposition.
pub open spec fn dot_text(hs: Seq<HuDAG<String>>) -> Seq<char> {
    header() + dags_text(hs) + footer()
}

/// `, key="value"` for each attribute of node `n`, in the order they were
/// first set. That order is deterministic and independent of hashing; keys are
/// not sorted, as `String` comparison has no specification the proofs could
/// rest on.
pub open spec fn attrs_text(attrs: Seq<(String, String, String)>, n: Seq<char>) -> Seq<char>
    decreases attrs.len(),
{
    if attrs.len() == 0 {
        Seq::empty()
    } else {
        let (m, k, v) = attrs.last();
        if m@ == n {
            attrs_text(attrs.drop_last(), n) + ", "@ + k@ + "=\""@ + v@ + "\""@
        } else {
            attrs_text(attrs.drop_last(), n)
        }
    }
}

/// `  n [label="n", key="value"];` and a line break.
pub open spec fn decl_line(n: Seq<char>, attrs: Seq<(String, String, String)>) -> Seq<char> {
    "  "@ + n + " [label=\""@ + n + "\""@ + attrs_text(attrs, n) + "];\n"@
}

/// One declaration for each node of the list, in order.
pub open spec fn decls_text(nodes: Seq<String>, attrs: Seq<(String, String, String)>) -> Seq<
    char,
>
    decreases nodes.len(),
{
    if nodes.len() == 0 {
        Seq::empty()
    } else {
        decls_text(nodes.drop_last(), attrs) + decl_line(nodes.last()@, attrs)
    }
}

/// `    n;` and a line break, for each node of a cluster.
pub open spec fn members_text(nodes: Seq<String>) -> Seq<char>
    decreases nodes.len(),
{
    if nodes.len() == 0 {
        Seq::empty()
    } else {
        members_text(nodes.drop_last()) + "    "@ + nodes.last()@ + ";\n"@
    }
}

pub open spec fn cluster_block(c: Cluster) -> Seq<char> {
    "  subgraph "@ + c.name@ + " {\n"@ + members_text(c.nodes@) + "  }\n"@
}

/// One `subgraph` block for each cluster, in order.
pub open spec fn clusters_text(cs: Seq<Cluster>) -> Seq<char>
    decreases cs.len(),
{
    if cs.len() == 0 {
        Seq::empty()
    } else {
        clusters_text(cs.drop_last()) + cluster_block(cs.last())
    }
}

proof fn lemma_path_text_concat(a: Seq<(String, String)>, b: Seq<(String, String)>)
    ensures
        path_text(a + b) == path_text(a) + path_text(b),
    decreases b.len(),
{
    if b.len() == 0 {
        assert(a + b =~= a);
    } else {
        lemma_path_text_concat(a, b.drop_last());
        assert((a + b).drop_last() =~= a + b.drop_last());
        assert((a + b).last() == b.last());
    }
}

proof fn lemma_dags_text_concat(a: Seq<HuDAG<String>>, b: Seq<HuDAG<String>>)
    ensures
        dags_text(a + b) == dags_text(a) + dags_text(b),
    decreases b.len(),
{
    if b.len() == 0 {
        assert(a + b =~= a);
    } else {
        lemma_dags_text_concat(a, b.drop_last());
        assert((a + b).drop_last() =~= a + b.drop_last());
        assert((a + b).last() == b.last());
    }
}

/// Each edge of a path is rendered as its own `->` statement, after the
/// statements of the edges before it and before those of the edges after it.
pub proof fn lemma_path_edge_rendered(p: Seq<(String, String)>, e: int)
    requires
        0 <= e < p.len(),
    ensures
        path_text(p) == path_text(p.subrange(0, e)) + edge_line(p[e].0@, p[e].1@) + path_text(
            p.subrange(e + 1, p.len() as int),
        ),
{
    let pre = p.subrange(0, e);
    let post = p.subrange(e + 1, p.len() as int);
    assert(p =~= pre.push(p[e]) + post);
    lemma_path_text_concat(pre.push(p[e]), post);
    assert(pre.push(p[e]).drop_last() =~= pre);
}

/// The rendering of a decomposition holds the statements of each path, in
/// order, between the statements of the traversals before it and after it.
pub proof fn lemma_path_rendered(hs: Seq<HuDAG<String>>, k: int, p: Vec<(String, String)>)
    requires
        0 <= k < hs.len(),
        hs[k] == HuDAG::Path(p),
    ensures
        dot_text(hs) == header() + dags_text(hs.subrange(0, k)) + path_text(p@) + dags_text(
            hs.subrange(k + 1, hs.len() as int),
        ) + footer(),
{
    let pre = hs.subrange(0, k);
    let post = hs.subrange(k + 1, hs.len() as int);
    assert(hs =~= pre.push(hs[k]) + post);
    lemma_dags_text_concat(pre.push(hs[k]), post);
    assert(pre.push(hs[k]).drop_last() =~= pre);
    assert(dags_text(pre.push(hs[k])) == dags_text(pre) + path_text(p@));
}

/// Appends the statements of each traversal of `hs`.
fn push_dags(s: &mut String, hs: &Vec<HuDAG<String>>)
    ensures
        final(s)@ == old(s)@ + dags_text(hs@),
{
    let ghost s0 = s@;
    let mut k: usize = 0;
    while k < hs.len()
        invariant
            k <= hs@.len(),
            s@ == s0 + dags_text(hs@.subrange(0, k as int)),
        decreases hs@.len() - k,
    {
        let ghost before = s@;
        match &hs[k] {
            HuDAG::Path(p) => {
                let mut e: usize = 0;
                while e < p.len()
                    invariant
                        e <= p@.len(),
                        s@ == before + path_text(p@.subrange(0, e as int)),
                    decreases p@.len() - e,
                {
                    s.append("  ");
                    s.append(p[e].0.as_str());
                    s.append(" -> ");
                    s.append(p[e].1.as_str());
                    s.append(";\n");
                    proof {
                        assert(p@.subrange(0, e + 1).drop_last() =~= p@.subrange(0, e as int));
                        assert(s@ =~= before + path_text(p@.subrange(0, e + 1)));
                    }
                    e = e + 1;
                }
                proof {
                    assert(p@.subrange(0, p@.len() as int) =~= p@);
                }
            },
            HuDAG::Single(a) => {
                s.append("  ");
                s.append(a.as_str());
                s.append(";\n");
                proof {
                    assert(s@ =~= before + node_line(a@));
                }
            },
        }
        proof {
            assert(hs@.subrange(0, k + 1).drop_last() =~= hs@.subrange(0, k as int));
            assert(s@ =~= s0 + dags_text(hs@.subrange(0, k + 1)));
        }
        k = k + 1;
    }
    proof {
        assert(hs@.subrange(0, hs@.len() as int) =~= hs@);
    }
}

/// The plain rendering: the header, the statements of each traversal, the
/// footer.
pub(crate) fn render_plain(hs: &Vec<HuDAG<String>>) -> (r: String)
    ensures
        r@ == dot_text(hs@),
{
    let mut s = String::new();
    s.append("digraph G {\n");
    push_dags(&mut s, hs);
    s.append("}\n");
    proof {
        assert(s@ =~= dot_text(hs@));
    }
    s
}

/// A named group of node labels, drawn as a `subgraph`.
pub struct Cluster {
    pub name: String,
    pub nodes: Vec<String>,
}

impl Cluster {
    pub fn new(name: String, nodes: Vec<String>) -> (r: Self)
        ensures
            r.name == name,
            r.nodes == nodes,
    {
        Self { name, nodes }
    }
}

/// A decomposition over node labels, the known node labels, the attributes set
/// on them and the clusters, ready to be rendered.
pub struct Dotutils {
    hu_dag: Vec<HuDAG<String>>,
    node_list: Vec<String>,
    /// (node, key, value), one entry for each node and key, in the order each
    /// key was first set on its node.
    attributes: Vec<(String, String, String)>,
    clusters: Vec<Cluster>,
}

/// No two entries are for the same node and key.
pub open spec fn attrs_unique(a: Seq<(String, String, String)>) -> bool {
    forall|i: int, j: int|
        0 <= i < a.len() && 0 <= j < a.len() && (#[trigger] a[i]).0@ == (#[trigger] a[j]).0@
            && a[i].1@ == a[j].1@ ==> i == j
}

/// Sets `key` to `value` on node `n`: in place where the node has that key,
/// at the end otherwise.
pub open spec fn attrs_set(
    a: Seq<(String, String, String)>,
    n: Seq<char>,
    key: Seq<char>,
    value: Seq<char>,
) -> Seq<(Seq<char>, Seq<char>, Seq<char>)> {
    let v = attrs_view(a);
    if exists|j: int| 0 <= j < a.len() && (#[trigger] a[j]).0@ == n && a[j].1@ == key {
        let j = choose|j: int| 0 <= j < a.len() && (#[trigger] a[j]).0@ == n && a[j].1@ == key;
        v.update(j, (n, key, value))
    } else {
        v.push((n, key, value))
    }
}

pub open spec fn attrs_view(a: Seq<(String, String, String)>) -> Seq<
    (Seq<char>, Seq<char>, Seq<char>),
> {
    a.map_values(|t: (String, String, String)| (t.0@, t.1@, t.2@))
}

impl Dotutils {
    pub closed spec fn hu_dag(&self) -> Seq<HuDAG<String>> {
        self.hu_dag@
    }

    pub closed spec fn node_list(&self) -> Seq<String> {
        self.node_list@
    }

    pub closed spec fn attributes(&self) -> Seq<(String, String, String)> {
        self.attributes@
    }

    pub closed spec fn clusters(&self) -> Seq<Cluster> {
        self.clusters@
    }

    pub open spec fn wf(&self) -> bool {
        attrs_unique(self.attributes())
    }

    /// Whether `n` is one of the known node labels.
    pub open spec fn knows(&self, n: Seq<char>) -> bool {
        exists|k: int| 0 <= k < self.node_list().len() && (#[trigger] self.node_list()[k])@ == n
    }

    pub fn new(hu_dag: Vec<HuDAG<String>>, node_list: Vec<String>, clusters: Vec<Cluster>) -> (r:
        Self)
        ensures
            r.wf(),
            r.hu_dag() == hu_dag@,
            r.node_list() == node_list@,
            r.attributes() == Seq::<(String, String, String)>::empty(),
            r.clusters() == clusters@,
    {
        Self { hu_dag, node_list, attributes: Vec::new(), clusters }
    }

    /// Sets the attribute `attribute` of `node` to `value`; a node that is not
    /// one of the known labels is ignored.
    pub fn add_node_attribute(&mut self, node: &str, attribute: &str, value: &str)
        requires
            old(self).wf(),
        ensures
            final(self).wf(),
            final(self).hu_dag() == old(self).hu_dag(),
            final(self).node_list() == old(self).node_list(),
            final(self).clusters() == old(self).clusters(),
            old(self).knows(node@) ==> attrs_view(final(self).attributes()) == attrs_set(
                old(self).attributes(),
                node@,
                attribute@,
                value@,
            ),
            !old(self).knows(node@) ==> final(self).attributes() == old(self).attributes(),
    {
        let node = String::from_str(node);
        let mut known = false;
        let mut k: usize = 0;
        while k < self.node_list.len()
            invariant
                k <= self.node_list@.len(),
                known <==> exists|m: int| 0 <= m < k && (#[trigger] self.node_list@[m])@ == node@,
            decreases self.node_list@.len() - k,
        {
            if self.node_list[k] == node {
                known = true;
            }
            k = k + 1;
        }
        if !known {
            return;
        }
        let attribute = String::from_str(attribute);
        let ghost a0 = self.attributes@;
        let len = self.attributes.len();
        let mut pos: usize = len;
        let mut j: usize = 0;
        while j < len
            invariant
                len == a0.len(),
                self.attributes@ == a0,
                j <= len,
                pos == len || pos < j,
                pos == len ==> forall|m: int|
                    0 <= m < j ==> !((#[trigger] a0[m]).0@ == node@ && a0[m].1@ == attribute@),
                pos < len ==> a0[pos as int].0@ == node@ && a0[pos as int].1@ == attribute@,
            decreases len - j,
        {
            if pos == len && self.attributes[j].0 == node && self.attributes[j].1 == attribute {
                pos = j;
            }
            j = j + 1;
        }
        let entry = (node, attribute, String::from_str(value));
        if pos < len {
            self.attributes.set(pos, entry);
        } else {
            self.attributes.push(entry);
        }
        proof {
            let a1 = self.attributes@;
            if pos < len {
                assert(a1[pos as int] == entry);
                assert(exists|j: int| 0 <= j < a0.len() && (#[trigger] a0[j]).0@ == node@ && a0[j].1@ == attribute@);
                let c = choose|j: int| 0 <= j < a0.len() && (#[trigger] a0[j]).0@ == node@ && a0[j].1@ == attribute@;
                assert(c == pos);
            }
            assert(attrs_view(a1) =~= attrs_set(a0, node@, attribute@, value@));
            assert forall|i: int, j: int|
                0 <= i < a1.len() && 0 <= j < a1.len() && (#[trigger] a1[i]).0@ == (#[trigger] a1[j]).0@
                    && a1[i].1@ == a1[j].1@ implies i == j by {
                if i != pos as int && j != pos as int && i < len && j < len {
                    assert(a0[i] == a1[i] && a0[j] == a1[j]);
                }
            }
        }
    }
    /// The plain rendering of the decomposition.
    pub fn dot_notation(&self) -> (r: String)
        ensures
            r@ == dot_text(self.hu_dag()),
    {
        render_plain(&self.hu_dag)
    }

    /// The rendering with a declaration of each known node and its
    /// attributes, then the statements of the decomposition, then, where
    /// `cluster` is set, the clusters.
    pub fn dot_notation_augmented(&self, cluster: bool) -> (r: String)
        ensures
            r@ == header() + decls_text(self.node_list(), self.attributes()) + dags_text(
                self.hu_dag(),
            ) + (if cluster {
                clusters_text(self.clusters())
            } else {
                Seq::empty()
            }) + footer(),
    {
        let mut s = String::new();
        s.append("digraph G {\n");
        let mut k: usize = 0;
        while k < self.node_list.len()
            invariant
                k <= self.node_list@.len(),
                s@ == header() + decls_text(
                    self.node_list@.subrange(0, k as int),
                    self.attributes@,
                ),
            decreases self.node_list@.len() - k,
        {
            let ghost before = s@;
            let n = &self.node_list[k];
            s.append("  ");
            s.append(n.as_str());
            s.append(" [label=\"");
            s.append(n.as_str());
            s.append("\"");
            let ghost mid = s@;
            let mut a: usize = 0;
            while a < self.attributes.len()
                invariant
                    a <= self.attributes@.len(),
                    s@ == mid + attrs_text(self.attributes@.subrange(0, a as int), n@),
                decreases self.attributes@.len() - a,
            {
                let ghost before_a = s@;
                if self.attributes[a].0 == *n {
                    s.append(", ");
                    s.append(self.attributes[a].1.as_str());
                    s.append("=\"");
                    s.append(self.attributes[a].2.as_str());
                    s.append("\"");
                }
                proof {
                    let sub = self.attributes@.subrange(0, a + 1);
                    assert(sub.drop_last() =~= self.attributes@.subrange(0, a as int));
                    assert(s@ =~= mid + attrs_text(sub, n@));
                }
                a = a + 1;
            }
            s.append("];\n");
            proof {
                assert(self.attributes@.subrange(0, self.attributes@.len() as int)
                    =~= self.attributes@);
                let sub = self.node_list@.subrange(0, k + 1);
                assert(sub.drop_last() =~= self.node_list@.subrange(0, k as int));
                assert(s@ =~= header() + decls_text(sub, self.attributes@));
            }
            k = k + 1;
        }
        proof {
            assert(self.node_list@.subrange(0, self.node_list@.len() as int) =~= self.node_list@);
        }
        push_dags(&mut s, &self.hu_dag);
        if cluster {
            let c = self.cluster_notation();
            s.append(c.as_str());
        }
        s.append("}\n");
        proof {
            if cluster {
                assert(s@ =~= header() + decls_text(self.node_list(), self.attributes()) + dags_text(
                    self.hu_dag(),
                ) + clusters_text(self.clusters()) + footer());
            } else {
                assert(s@ =~= header() + decls_text(self.node_list(), self.attributes()) + dags_text(
                    self.hu_dag(),
                ) + Seq::empty() + footer());
            }
        }
        s
    }

    /// One `subgraph` block for each cluster, in order.
    pub fn cluster_notation(&self) -> (r: String)
        ensures
            r@ == clusters_text(self.clusters()),
    {
        let mut s = String::new();
        let mut k: usize = 0;
        while k < self.clusters.len()
            invariant
                k <= self.clusters@.len(),
                s@ == clusters_text(self.clusters@.subrange(0, k as int)),
            decreases self.clusters@.len() - k,
        {
            let ghost before = s@;
            let c = &self.clusters[k];
            s.append("  subgraph ");
            s.append(c.name.as_str());
            s.append(" {\n");
            let ghost mid = s@;
            let mut m: usize = 0;
            while m < c.nodes.len()
                invariant
                    m <= c.nodes@.len(),
                    s@ == mid + members_text(c.nodes@.subrange(0, m as int)),
                decreases c.nodes@.len() - m,
            {
                s.append("    ");
                s.append(c.nodes[m].as_str());
                s.append(";\n");
                proof {
                    let sub = c.nodes@.subrange(0, m + 1);
                    assert(sub.drop_last() =~= c.nodes@.subrange(0, m as int));
                    assert(s@ =~= mid + members_text(sub));
                }
                m = m + 1;
            }
            s.append("  }\n");
            proof {
                assert(c.nodes@.subrange(0, c.nodes@.len() as int) =~= c.nodes@);
                let sub = self.clusters@.subrange(0, k + 1);
                assert(sub.drop_last() =~= self.clusters@.subrange(0, k as int));
                assert(s@ =~= clusters_text(sub));
            }
            k = k + 1;
        }
        proof {
            assert(self.clusters@.subrange(0, self.clusters@.len() as int) =~= self.clusters@);
        }
        s
    }
}

} // verus!
