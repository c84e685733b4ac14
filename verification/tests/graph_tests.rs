use opt_for_lang2::graph::DirectedGraph;

#[test]
fn test_add() {
    let mut graph = DirectedGraph::new();
    graph.add(3);

    assert_eq!(graph.nodes[0], 3);
    assert_eq!(graph.succ.len(), 1);
    assert_eq!(graph.pred.len(), 1);
}

#[test]
fn test_pred() {
    let mut graph = DirectedGraph::new();
    let a = graph.add(30);
    let b = graph.add(10);
    let c = graph.add(25);
    let d = graph.add(29);
    graph.add_edge(a, b);
    graph.add_edge(a, c);
    graph.add_edge(b, c);
    graph.add_edge(c, d);

    let pred: Vec<&i32> = graph.pred(c);
    assert!(pred.contains(&&30));
    assert!(pred.contains(&&10));

    let indexes: Vec<usize> = graph.pred_indexes(c).clone();
    assert!(indexes.contains(&a));
    assert!(indexes.contains(&b));
}

#[test]
fn test_succ() {
    let mut graph = DirectedGraph::new();
    let a = graph.add(30);
    let b = graph.add(10);
    let c = graph.add(25);
    let d = graph.add(29);
    graph.add_edge(a, b);
    graph.add_edge(a, c);
    graph.add_edge(b, c);
    graph.add_edge(c, d);

    let succ: Vec<&i32> = graph.succ(a);
    assert!(succ.contains(&&10));
    assert!(succ.contains(&&25));

    let indexes: Vec<usize> = graph.succ_indexes(a).clone();
    assert!(indexes.contains(&b));
    assert!(indexes.contains(&c));
}

#[test]
fn test_duplicate_edge_collapses() {
    let mut graph = DirectedGraph::new();
    let a = graph.add(1);
    let b = graph.add(2);
    graph.add_edge(a, b);
    graph.add_edge(a, b);
    assert_eq!(graph.succ_indexes(a).len(), 1);
    assert_eq!(graph.pred_indexes(b).len(), 1);
}

#[test]
fn test_len_get_iter() {
    let mut graph = DirectedGraph::new();
    graph.add(7);
    graph.add(8);
    assert_eq!(graph.len(), 2);
    assert_eq!(graph.get(1), Some(&8));
    assert_eq!(graph.get(2), None);
    assert_eq!(graph.iter().clone(), vec![7, 8]);
    assert_eq!(graph.edges().len(), 2);
    let g2 = graph;
    assert_eq!(g2.into_iter(), vec![7, 8]);
}
