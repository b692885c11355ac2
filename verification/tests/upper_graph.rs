use lsm_vec::upper_graph::UpperGraph;

#[test]
fn test_entry_point() {
    let mut graph = UpperGraph::new();

    assert!(graph.get_entry_point().is_none());

    graph.set_entry_point(42, 3);
    assert_eq!(graph.get_entry_point(), Some((42, 3)));

    graph.set_entry_point(100, 5);
    assert_eq!(graph.get_entry_point(), Some((100, 5)));

    graph.clear_entry_point();
    assert!(graph.get_entry_point().is_none());
}

#[test]
fn test_neighbors() {
    let mut graph = UpperGraph::new();

    // The bottom layer is kept elsewhere.
    graph.set_neighbors(1, 0, vec![2, 3]);
    assert!(graph.get_neighbors(1, 0).is_none());

    graph.set_neighbors(1, 1, vec![2, 3, 4]);
    assert_eq!(graph.get_neighbors(1, 1), Some(vec![2, 3, 4]));

    assert!(graph.get_neighbors(999, 1).is_none());
}

#[test]
fn test_remove_node() {
    let mut graph = UpperGraph::new();

    graph.set_neighbors(1, 1, vec![2, 3]);
    graph.set_neighbors(1, 2, vec![4, 5]);
    graph.set_neighbors(1, 3, vec![6]);

    assert!(graph.contains(1, 1));
    assert!(graph.contains(1, 2));
    assert!(graph.contains(1, 3));

    graph.remove_node(1);

    assert!(!graph.contains(1, 1));
    assert!(!graph.contains(1, 2));
    assert!(!graph.contains(1, 3));
}

#[test]
fn test_layer_size() {
    let mut graph = UpperGraph::new();

    graph.set_neighbors(1, 1, vec![2]);
    graph.set_neighbors(2, 1, vec![3]);
    graph.set_neighbors(3, 2, vec![4]);

    assert_eq!(graph.layer_size(0), 0);
    assert_eq!(graph.layer_size(1), 2);
    assert_eq!(graph.layer_size(2), 1);
    assert_eq!(graph.total_nodes(), 3);
}

#[test]
fn layers_beyond_the_last_hold_nothing() {
    let mut graph = UpperGraph::default();
    graph.set_neighbors(1, 16, vec![2]);
    graph.set_neighbors(1, 255, vec![2]);
    assert!(graph.get_neighbors(1, 16).is_none());
    assert!(!graph.contains(1, 255));
    assert_eq!(graph.layer_size(16), 0);
    assert_eq!(graph.total_nodes(), 0);

    graph.set_neighbors(1, 15, vec![2]);
    assert_eq!(graph.get_neighbors(1, 15), Some(vec![2]));
    assert_eq!(graph.total_nodes(), 1);
}

#[test]
fn setting_and_removing_touch_one_node_only() {
    let mut graph = UpperGraph::new();
    graph.set_neighbors(1, 1, vec![2]);
    graph.set_neighbors(2, 1, vec![1]);
    graph.set_neighbors(1, 1, vec![3]);
    assert_eq!(graph.get_neighbors(1, 1), Some(vec![3]));
    assert_eq!(graph.get_neighbors(2, 1), Some(vec![1]));
    graph.remove_node(1);
    assert_eq!(graph.get_neighbors(2, 1), Some(vec![1]));
    assert_eq!(graph.total_nodes(), 1);
}
