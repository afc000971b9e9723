use rust_ds::{Graph, GraphCategoryBits, GraphError};

fn s(x: &str) -> String {
    x.to_string()
}

fn sample_nodes() -> Vec<String> {
    ["AAA", "BBB", "CCC", "DDD", "EEE", "FFF"].iter().map(|x| s(x)).collect()
}

fn sample_edges() -> Vec<(String, String, i32)> {
    vec![
        (s("AAA"), s("BBB"), 1),
        (s("AAA"), s("CCC"), 2),
        (s("CCC"), s("DDD"), 2),
        (s("CCC"), s("EEE"), 2),
        (s("CCC"), s("FFF"), 2),
    ]
}

fn sample_tree() -> Graph<i32> {
    let mut g = Graph::new_bidir(&sample_nodes(), &sample_edges()).unwrap();
    g.compute_rooted_tree(&s("AAA"), true).unwrap();
    g
}

fn depth(g: &Graph<i32>, x: &str) -> usize {
    g.node_info(&s(x)).unwrap().level
}

#[test]
fn sample_tree_is_classified_as_tree() {
    let g = Graph::new_bidir(&sample_nodes(), &sample_edges()).unwrap();
    assert!(g.is_tree());
    assert!(g.is_connected());
    assert!(g.is_forest());
    assert!(g.is_bidir());
    assert!(!g.is_dag());
}

#[test]
fn sample_tree_depths() {
    let g = sample_tree();
    assert_eq!(depth(&g, "AAA"), 0);
    assert_eq!(depth(&g, "BBB"), 1);
    assert_eq!(depth(&g, "CCC"), 1);
    assert_eq!(depth(&g, "DDD"), 2);
    assert_eq!(depth(&g, "EEE"), 2);
    assert_eq!(depth(&g, "FFF"), 2);
}

#[test]
fn sample_tree_common_ancestors() {
    let g = sample_tree();
    assert_eq!(g.common_ancestor(&s("CCC"), &s("BBB")).unwrap(), "AAA");
    assert_eq!(g.common_ancestor(&s("DDD"), &s("FFF")).unwrap(), "CCC");
    assert_eq!(g.common_ancestor(&s("EEE"), &s("BBB")).unwrap(), "AAA");
    assert_eq!(g.common_ancestor(&s("DDD"), &s("CCC")).unwrap(), "CCC");
    assert_eq!(g.common_ancestor(&s("EEE"), &s("EEE")).unwrap(), "EEE");
}

#[test]
fn sample_tree_bridges() {
    let g = sample_tree();
    let bridges = g.get_bridges().unwrap();
    assert_eq!(
        bridges,
        vec![
            (s("BBB"), s("AAA")),
            (s("CCC"), s("AAA")),
            (s("DDD"), s("CCC")),
            (s("EEE"), s("CCC")),
            (s("FFF"), s("CCC")),
        ]
    );
}

#[test]
fn every_tree_edge_is_a_bridge_from_another_root() {
    let mut g = Graph::new_bidir(&sample_nodes(), &sample_edges()).unwrap();
    g.compute_rooted_tree(&s("DDD"), false).unwrap();
    let bridges = g.get_bridges().unwrap();
    assert_eq!(bridges.len(), 5);
    assert!(bridges.contains(&(s("CCC"), s("DDD"))));
    assert!(bridges.contains(&(s("AAA"), s("CCC"))));
    assert!(bridges.contains(&(s("BBB"), s("AAA"))));
}

#[test]
fn ids_follow_first_seen_order() {
    let nodes = vec![s("x"), s("y"), s("x"), s("z"), s("y")];
    let g: Graph<i32> = Graph::new(&nodes, &vec![]).unwrap();
    assert_eq!(g.node_id(&s("x")), Some(0));
    assert_eq!(g.node_id(&s("y")), Some(1));
    assert_eq!(g.node_id(&s("z")), Some(2));
    assert_eq!(g.node_id(&s("w")), None);
    for i in 0..3 {
        let label = g.node_label(i).unwrap().clone();
        assert_eq!(g.node_id(&label), Some(i));
    }
    assert_eq!(g.node_label(3), None);
}

#[test]
fn undirected_edges_are_listed_both_ways() {
    let g = Graph::new_bidir(&sample_nodes(), &sample_edges()).unwrap();
    let a = g.node_iter(&s("AAA")).unwrap();
    assert_eq!(a, vec![(s("BBB"), 1), (s("CCC"), 2)]);
    let c = g.node_iter(&s("CCC")).unwrap();
    assert_eq!(c, vec![(s("AAA"), 2), (s("DDD"), 2), (s("EEE"), 2), (s("FFF"), 2)]);
    let f = g.node_iter(&s("FFF")).unwrap();
    assert_eq!(f, vec![(s("CCC"), 2)]);
}

#[test]
fn directed_edges_are_listed_one_way() {
    let g = Graph::new(&sample_nodes(), &sample_edges()).unwrap();
    assert_eq!(g.node_iter(&s("AAA")).unwrap(), vec![(s("BBB"), 1), (s("CCC"), 2)]);
    assert_eq!(g.node_iter(&s("BBB")).unwrap(), vec![]);
    assert!(g.is_dag());
    assert!(!g.is_tree());
    assert!(!g.is_bidir());
}

#[test]
fn directed_cycle_clears_dag() {
    let nodes = vec![s("a"), s("b"), s("c")];
    let edges = vec![(s("a"), s("b"), 1), (s("b"), s("c"), 1), (s("c"), s("a"), 1)];
    let g = Graph::new(&nodes, &edges).unwrap();
    assert!(!g.is_dag());
    let self_loop = Graph::new(&nodes, &vec![(s("b"), s("b"), 3)]).unwrap();
    assert!(!self_loop.is_dag());
}

#[test]
fn extra_edge_clears_tree() {
    let mut edges = sample_edges();
    edges.push((s("EEE"), s("AAA"), 2));
    let g = Graph::new_bidir(&sample_nodes(), &edges).unwrap();
    assert!(!g.is_tree());
    assert!(!g.is_connected());
    assert!(!g.is_forest());
    assert!(g.is_bidir());
}

#[test]
fn disconnected_acyclic_graph_is_forest_only() {
    let nodes = vec![s("a"), s("b"), s("c"), s("d")];
    let edges = vec![(s("a"), s("b"), 1), (s("c"), s("d"), 1)];
    let g = Graph::new_bidir(&nodes, &edges).unwrap();
    assert!(!g.is_tree());
    assert!(!g.is_connected());
    assert!(g.is_forest());
}

#[test]
fn unknown_edge_endpoint_is_an_error() {
    let edges = vec![(s("AAA"), s("ZZZ"), 1)];
    let r = Graph::new_bidir(&sample_nodes(), &edges);
    assert_eq!(r.err(), Some(GraphError::UnknownNode(s("ZZZ"))));
}

#[test]
fn queries_need_the_tree_category() {
    let nodes = vec![s("a"), s("b"), s("c")];
    let edges = vec![(s("a"), s("b"), 1), (s("b"), s("c"), 1), (s("c"), s("a"), 1)];
    let mut g = Graph::new_bidir(&nodes, &edges).unwrap();
    let tree = 2u8;
    assert_eq!(g.compute_rooted_tree(&s("a"), true), Err(GraphError::MissingCategories(tree)));
    assert_eq!(g.get_bridges(), Err(GraphError::MissingCategories(tree)));
    assert_eq!(g.common_ancestor(&s("a"), &s("b")), Err(GraphError::MissingCategories(tree)));
    assert_eq!(GraphCategoryBits::name_from_bit(tree), "Tree");
}

#[test]
fn index_errors() {
    let mut g = Graph::new_bidir(&sample_nodes(), &sample_edges()).unwrap();
    assert_eq!(g.get_bridges(), Err(GraphError::NotIndexed));
    assert_eq!(g.common_ancestor(&s("AAA"), &s("BBB")), Err(GraphError::NotIndexed));
    assert_eq!(g.compute_rooted_tree(&s("QQQ"), true), Err(GraphError::UnknownNode(s("QQQ"))));
    g.compute_rooted_tree(&s("AAA"), false).unwrap();
    assert_eq!(g.common_ancestor(&s("DDD"), &s("BBB")), Err(GraphError::NoAncestorTable));
    g.compute_rooted_tree(&s("AAA"), true).unwrap();
    assert_eq!(g.common_ancestor(&s("DDD"), &s("QQQ")), Err(GraphError::UnknownNode(s("QQQ"))));
}

#[test]
fn category_names() {
    assert_eq!(GraphCategoryBits::name_from_bit(1), "Bidirectional");
    assert_eq!(GraphCategoryBits::name_from_bit(4), "Connected-bidirectional");
    assert_eq!(GraphCategoryBits::name_from_bit(8), "Forest");
    assert_eq!(GraphCategoryBits::name_from_bit(16), "Directed-acyclic-graph");
}

#[test]
fn euler_intervals_nest() {
    let g = sample_tree();
    let info = |x: &str| g.node_info(&s(x)).unwrap().clone();
    let root = info("AAA");
    assert_eq!(root.enter_time, 0);
    for x in ["AAA", "BBB", "CCC", "DDD", "EEE", "FFF"] {
        let r = info(x);
        assert!(root.enter_time <= r.enter_time && root.exit_time.unwrap() >= r.exit_time.unwrap());
        assert!(r.enter_time <= r.exit_time.unwrap());
    }
    let c = info("CCC");
    let d = info("DDD");
    let b = info("BBB");
    assert!(c.enter_time <= d.enter_time && c.exit_time.unwrap() >= d.exit_time.unwrap());
    assert!(!(b.enter_time <= d.enter_time && b.exit_time.unwrap() >= d.exit_time.unwrap()));
    assert_eq!(c.subtree_sz, Some(4));
    assert_eq!(root.subtree_sz, Some(6));
    assert_eq!(d.subtree_upnode_cnt, Some(0));
}

#[test]
fn ancestor_tables_hold_powers_of_two() {
    let g = sample_tree();
    let id = |x: &str| g.node_id(&s(x)).unwrap();
    let d = g.node_info(&s("DDD")).unwrap();
    assert_eq!(d.pow2_ancestors.as_ref().unwrap(), &vec![id("CCC"), id("AAA"), id("AAA")]);
    let a = g.node_info(&s("AAA")).unwrap();
    assert_eq!(a.pow2_ancestors.as_ref().unwrap(), &vec![id("AAA")]);
}

#[test]
fn reindexing_gives_identical_records() {
    let mut g = sample_tree();
    let before: Vec<_> = sample_nodes().iter().map(|x| g.node_info(x).unwrap().clone()).collect();
    g.compute_rooted_tree(&s("AAA"), true).unwrap();
    let after: Vec<_> = sample_nodes().iter().map(|x| g.node_info(x).unwrap().clone()).collect();
    for (a, b) in before.iter().zip(after.iter()) {
        assert_eq!(a.enter_time, b.enter_time);
        assert_eq!(a.exit_time, b.exit_time);
        assert_eq!(a.level, b.level);
        assert_eq!(a.subtree_sz, b.subtree_sz);
        assert_eq!(a.subtree_upnode_cnt, b.subtree_upnode_cnt);
        assert_eq!(a.pow2_ancestors, b.pow2_ancestors);
    }
}

#[test]
fn single_node_tree() {
    let mut g: Graph<i32> = Graph::new_bidir(&vec![s("solo")], &vec![]).unwrap();
    assert!(g.is_tree());
    g.compute_rooted_tree(&s("solo"), true).unwrap();
    assert_eq!(g.get_bridges().unwrap(), vec![]);
    assert_eq!(g.common_ancestor(&s("solo"), &s("solo")).unwrap(), "solo");
}

#[test]
fn empty_graph_is_not_a_tree() {
    let g: Graph<i32> = Graph::new_bidir(&vec![], &vec![]).unwrap();
    assert!(!g.is_tree());
    assert!(g.is_forest());
}

#[test]
fn unknown_label_reported_before_missing_index() {
    let g = Graph::new_bidir(&sample_nodes(), &sample_edges()).unwrap();
    assert_eq!(g.common_ancestor(&s("AAA"), &s("QQQ")), Err(GraphError::UnknownNode(s("QQQ"))));
    assert_eq!(g.common_ancestor(&s("QQQ"), &s("AAA")), Err(GraphError::UnknownNode(s("QQQ"))));
}

#[test]
fn missing_category_names() {
    assert_eq!(GraphCategoryBits::names_from_mask(2), vec![s("Tree")]);
    assert_eq!(
        GraphCategoryBits::names_from_mask(2 | 8 | 16),
        vec![s("Tree"), s("Forest"), s("Directed-acyclic-graph")]
    );
    assert!(GraphCategoryBits::names_from_mask(0).is_empty());
}

#[test]
fn node_iter_unknown_label() {
    let g = Graph::new_bidir(&sample_nodes(), &sample_edges()).unwrap();
    assert_eq!(g.node_iter(&s("QQQ")), Err(GraphError::UnknownNode(s("QQQ"))));
}
