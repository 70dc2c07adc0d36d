use fixedbitset::FixedBitSet;
use multidigraph::adjac::{Adjac, HuDAG, MyDAG};
use multidigraph::dotutils::{Cluster, Dotutils};
use multidigraph::multidigraph::{Multidigraph, NodePath, NodePathTrait};

fn np(node: &str, edges: &[&str]) -> NodePath {
    NodePath::new(node.to_string(), edges.iter().map(|e| e.to_string()).collect())
}

fn s(x: &str) -> String {
    x.to_string()
}

fn chain_records() -> Vec<NodePath> {
    vec![
        np("1", &["2", "3"]),
        np("2", &["3"]),
        np("3", &[]),
        np("4", &["1"]),
        np("5", &["4"]),
        np("6", &["5"]),
        np("7", &["6"]),
        np("8", &["7"]),
        np("9", &["8"]),
    ]
}

fn build(records: &[NodePath]) -> Multidigraph {
    let mut g = Multidigraph::new();
    g.add_paths(records.iter().collect());
    g.build_adjac();
    g
}

fn chain_path() -> MyDAG {
    MyDAG::Path(vec![
        (8, 7),
        (7, 6),
        (6, 5),
        (5, 4),
        (4, 3),
        (3, 0),
        (0, 1),
        (1, 2),
        (0, 2),
    ])
}

#[test]
fn it_create_agraph() {
    let mut agraph = Multidigraph::new();
    let records = chain_records();
    agraph.add_paths(records.iter().collect());
    agraph.build_adjac();
    let loops = agraph.check_loops();
    assert_eq!(loops.len(), 0);
    let c_dag = agraph.connected_dags.clone();
    assert_eq!(c_dag, Some(vec![chain_path()]));
}

#[test]
fn it_create_agraph_string() {
    let mut agraph = Multidigraph::new();
    let mut records = chain_records();
    records.push(np("X", &[]));
    agraph.add_paths(records.iter().collect());
    agraph.build_adjac();
    let loops = agraph.check_loops();
    assert_eq!(loops.len(), 0);
    let c_dag = &agraph.connected_dags;
    assert_eq!(c_dag, &Some(vec![chain_path(), MyDAG::Single(9)]));
    let h_dag = agraph.hu_connected_dags();
    assert_eq!(h_dag.len(), 2);
    assert_eq!(h_dag[1], HuDAG::Single(s("X")));
}

#[test]
fn nodes_get_indices_in_order_of_first_mention() {
    let g = build(&chain_records());
    let want: Vec<String> = ["1", "2", "3", "4", "5", "6", "7", "8", "9"].iter().map(|x| s(x)).collect();
    assert_eq!(g.nodes, want);
    assert_eq!(g.graph.node_count(), 9);
    assert_eq!(g.graph.edge_count(), 9);
}

#[test]
fn repeated_successor_of_new_node_adds_one_edge() {
    let g = build(&[np("a", &["b", "b"])]);
    assert_eq!(g.graph.edge_count(), 1);
}

#[test]
fn repeated_record_adds_parallel_edges_that_collapse_in_matrix() {
    let g = build(&[np("a", &["b"]), np("a", &["b"])]);
    assert_eq!(g.graph.edge_count(), 2);
    let m = Adjac::new_from_graph(&g.graph);
    assert!(m.contains(0, 1));
    assert!(!m.contains(1, 0));
    assert_eq!(g.connected_dags, Some(vec![MyDAG::Path(vec![(0, 1)])]));
}

#[test]
fn chain_scenario_has_single_starting_node() {
    let g = build(&chain_records());
    let m = Adjac::new_from_graph(&g.graph);
    assert_eq!(m.getsize(), 9);
    assert_eq!(m.select_starting_nodes(), vec![8]);
    assert!(m.check_loops().is_empty());
    assert!(!g.has_loop());
    let hu = m.hu_connected_dags();
    let want: Vec<(String, String)> = [
        ("9", "8"),
        ("8", "7"),
        ("7", "6"),
        ("6", "5"),
        ("5", "4"),
        ("4", "1"),
        ("1", "2"),
        ("2", "3"),
        ("1", "3"),
    ]
    .iter()
    .map(|(a, b)| (s(a), s(b)))
    .collect();
    assert_eq!(hu, vec![HuDAG::Path(want)]);
}

#[test]
fn isolated_node_is_an_extra_single() {
    let mut records = chain_records();
    records.push(np("X", &[]));
    let g = build(&records);
    let m = Adjac::new_from_graph(&g.graph);
    assert_eq!(m.select_starting_nodes(), vec![8, 9]);
    assert_eq!(m.connected_dags(), vec![chain_path(), MyDAG::Single(9)]);
}

#[test]
fn no_edges_gives_all_singles() {
    let g = build(&[np("a", &[]), np("b", &[]), np("c", &[])]);
    let m = Adjac::new_from_graph(&g.graph);
    assert_eq!(m.select_starting_nodes(), vec![0, 1, 2]);
    assert_eq!(
        m.connected_dags(),
        vec![MyDAG::Single(0), MyDAG::Single(1), MyDAG::Single(2)]
    );
}

#[test]
fn empty_graph_has_nothing() {
    let g = build(&[]);
    let m = Adjac::new_from_graph(&g.graph);
    assert_eq!(m.getsize(), 0);
    assert!(m.select_starting_nodes().is_empty());
    assert!(m.connected_dags().is_empty());
    assert!(m.check_loops().is_empty());
    assert_eq!(m.dot_notation(), "digraph G {\n}\n");
}

#[test]
fn two_cycle_is_reported() {
    let g = build(&[np("a", &["b"]), np("b", &["a"])]);
    assert_eq!(g.check_loops(), vec![vec![s("a")]]);
    assert!(g.has_loop());
    assert!(g.connected_dags.as_ref().unwrap().is_empty());
}

#[test]
fn self_loop_is_reported() {
    let g = build(&[np("a", &["a"])]);
    assert_eq!(g.check_loops(), vec![vec![s("a")]]);
}

#[test]
fn back_edge_is_reported_once_per_edge() {
    // 0 -> 1, 0 -> 2, 1 -> 0, 2 -> 0
    let g = build(&[np("a", &["b", "c"]), np("b", &["a"]), np("c", &["a"])]);
    assert_eq!(g.check_loops(), vec![vec![s("a"), s("a")]]);
}

#[test]
fn cycle_entered_from_an_earlier_root_is_not_reported() {
    // 0 -> 2, 2 -> 1, 1 -> 2: the search from 0 visits the cycle first.
    let g = build(&[np("a", &["c"]), np("c", &["b"]), np("b", &["c"])]);
    assert_eq!(g.nodes, vec![s("a"), s("c"), s("b")]);
    let g2 = build(&[np("a", &["z"]), np("z", &["y"]), np("y", &["z"])]);
    assert!(g2.check_loops().is_empty());
    assert!(!g.has_loop());
}

#[test]
fn shared_descendant_edges_recorded_once_per_edge() {
    // a -> b, a -> c, b -> d, c -> d, d -> e
    let g = build(&[
        np("a", &["b", "c"]),
        np("b", &["d"]),
        np("c", &["d"]),
        np("d", &["e"]),
    ]);
    assert_eq!(
        g.connected_dags,
        Some(vec![MyDAG::Path(vec![(0, 1), (1, 3), (3, 4), (0, 2), (2, 3)])])
    );
}

#[test]
fn reruns_give_identical_results() {
    let mut records = chain_records();
    records.push(np("X", &[]));
    records.push(np("3", &["9"]));
    let g = build(&records);
    let m = Adjac::new_from_graph(&g.graph);
    assert_eq!(m.connected_dags(), m.connected_dags());
    assert_eq!(m.check_loops(), m.check_loops());
    assert_eq!(m.dot_notation(), m.dot_notation());
}

#[test]
fn render_lists_each_edge_in_order() {
    let g = build(&[np("a", &["b", "c"]), np("b", &["c"]), np("x", &[])]);
    let m = Adjac::new_from_graph(&g.graph);
    assert_eq!(
        m.dot_notation(),
        "digraph G {\n  a -> b;\n  b -> c;\n  a -> c;\n  x;\n}\n"
    );
}

#[test]
fn matrix_from_bits_and_labels() {
    let mut bits = FixedBitSet::with_capacity(4);
    bits.insert(1); // 0 -> 1
    let m = Adjac::new(&bits, &[s("p"), s("q")]);
    assert_eq!(m.getsize(), 2);
    assert!(m.contains(0, 1));
    assert!(!m.contains(1, 1));
    assert_eq!(m.select_starting_nodes(), vec![0]);
    assert_eq!(m.hu_connected_dags(), vec![HuDAG::Path(vec![(s("p"), s("q"))])]);
}

#[test]
fn matching_mdags_keeps_those_mentioning_node() {
    let dags = vec![
        MyDAG::Path(vec![(0, 1), (1, 2)]),
        MyDAG::Single(3),
        MyDAG::Path(vec![(4, 5)]),
        MyDAG::Single(2),
    ];
    assert_eq!(
        Adjac::matching_mdags(dags.clone(), 2),
        vec![MyDAG::Path(vec![(0, 1), (1, 2)]), MyDAG::Single(2)]
    );
    assert_eq!(Adjac::matching_mdags(dags.clone(), 3), vec![MyDAG::Single(3)]);
    assert!(Adjac::matching_mdags(dags, 9).is_empty());
}

#[test]
fn matching_dags_keeps_paths_mentioning_label() {
    let dags = vec![
        vec![(s("a"), s("b"))],
        vec![(s("c"), s("d")), (s("d"), s("e"))],
        vec![],
    ];
    assert_eq!(
        Adjac::matching_dags(dags.clone(), &s("d")),
        vec![vec![(s("c"), s("d")), (s("d"), s("e"))]]
    );
    assert!(Adjac::matching_dags(dags, &s("z")).is_empty());
}

#[test]
fn path_including_node_writes_labels() {
    let g = build(&[np("a", &["b"]), np("x", &[])]);
    let m = Adjac::new_from_graph(&g.graph);
    let dags = m.connected_dags();
    assert_eq!(
        m.path_including_node(&dags, &s("b")),
        vec![vec![(s("a"), Some(s("b")))]]
    );
    assert_eq!(m.path_including_node(&dags, &s("x")), vec![vec![(s("x"), None)]]);
}

fn sample_dotutils() -> Dotutils {
    let hu = vec![
        HuDAG::Path(vec![(s("a"), s("b")), (s("b"), s("c"))]),
        HuDAG::Single(s("x")),
    ];
    let nodes = vec![s("a"), s("b"), s("c"), s("x")];
    let clusters = vec![Cluster::new(s("cluster_0"), vec![s("a"), s("b")])];
    Dotutils::new(hu, nodes, clusters)
}

#[test]
fn dotutils_plain_rendering() {
    let d = sample_dotutils();
    assert_eq!(
        d.dot_notation(),
        "digraph G {\n  a -> b;\n  b -> c;\n  x;\n}\n"
    );
}

#[test]
fn dotutils_augmented_rendering() {
    let mut d = sample_dotutils();
    d.add_node_attribute("a", "color", "red");
    d.add_node_attribute("a", "shape", "box");
    d.add_node_attribute("a", "color", "blue");
    d.add_node_attribute("x", "style", "dashed");
    assert_eq!(
        d.dot_notation_augmented(false),
        "digraph G {\n  a [label=\"a\", color=\"blue\", shape=\"box\"];\n  b [label=\"b\"];\n  c [label=\"c\"];\n  x [label=\"x\", style=\"dashed\"];\n  a -> b;\n  b -> c;\n  x;\n}\n"
    );
    assert_eq!(
        d.dot_notation_augmented(true),
        "digraph G {\n  a [label=\"a\", color=\"blue\", shape=\"box\"];\n  b [label=\"b\"];\n  c [label=\"c\"];\n  x [label=\"x\", style=\"dashed\"];\n  a -> b;\n  b -> c;\n  x;\n  subgraph cluster_0 {\n    a;\n    b;\n  }\n}\n"
    );
}

#[test]
fn attribute_on_unknown_node_is_ignored() {
    let mut d = sample_dotutils();
    let before = d.dot_notation_augmented(true);
    d.add_node_attribute("nope", "color", "red");
    assert_eq!(d.dot_notation_augmented(true), before);
}

#[test]
fn cluster_notation_lists_members() {
    let d = Dotutils::new(
        vec![],
        vec![],
        vec![
            Cluster::new(s("one"), vec![s("p")]),
            Cluster::new(s("two"), vec![]),
        ],
    );
    assert_eq!(
        d.cluster_notation(),
        "  subgraph one {\n    p;\n  }\n  subgraph two {\n  }\n"
    );
}

#[test]
fn node_path_trait_round_trip() {
    let p = <NodePath as NodePathTrait>::new(s("n"), vec![s("m"), s("o")]);
    assert_eq!(p.get_node(), s("n"));
    assert_eq!(p.get_edges(), vec![s("m"), s("o")]);
}

#[test]
fn new_graph_is_empty() {
    let g = Multidigraph::new();
    assert_eq!(g.node_count(), 0);
    assert_eq!(g.edge_count(), 0);
    assert!(g.nodes.is_empty());
    assert!(g.adjac.is_none());
    assert!(g.connected_dags.is_none());
    assert!(g.need_remove.is_none());
}

#[test]
fn records_added_after_build_stay_invisible_until_rebuilt() {
    let mut g = build(&[np("a", &["b"])]);
    let before = g.hu_connected_dags();
    let more = [np("c", &["a"])];
    g.add_paths(more.iter().collect());
    assert_eq!(g.node_count(), 3);
    assert_eq!(g.edge_count(), 2);
    assert_eq!(g.hu_connected_dags(), before);
    assert_eq!(g.connected_dags, Some(vec![MyDAG::Path(vec![(0, 1)])]));
    assert!(g.try_build_adjac());
    assert_eq!(g.connected_dags, Some(vec![MyDAG::Path(vec![(2, 0), (0, 1)])]));
}

#[test]
fn adding_the_same_records_twice_keeps_nodes() {
    let mut g = Multidigraph::new();
    let records = chain_records();
    g.add_paths(records.iter().collect());
    let nodes = g.nodes.clone();
    g.add_paths(records.iter().collect());
    assert_eq!(g.nodes, nodes);
    assert_eq!(g.node_count(), 9);
    g.build_adjac();
    assert_eq!(g.connected_dags, Some(vec![chain_path()]));
}

#[test]
fn try_new_from_graph_builds_matrix() {
    let g = build(&[np("a", &["b"]), np("b", &[])]);
    let m = Adjac::try_new_from_graph(&g.graph).unwrap();
    assert_eq!(m.getsize(), 2);
    assert!(m.contains(0, 1));
    assert!(!m.contains(1, 0));
}
