use fluffy_structs::common::Error;
use fluffy_structs::common::Node;
use fluffy_structs::Graph;

#[test]
fn spawn_returns_a_slot_owned_by_the_graph() {
    let mut graph: Graph<i32> = Graph::new();
    let slot = graph.spawn(7);
    assert_eq!(slot, 0);
    let node = graph.get_node(slot).unwrap();
    assert_eq!(node.get_parent(), slot);
    assert_eq!(*node.value(), 7);
}

#[test]
fn spawning_n_values_reports_n_nodes_in_spawn_order() {
    let mut graph: Graph<i32> = Graph::new();
    assert_eq!(graph.len(), 0);
    let a = graph.spawn(10);
    let b = graph.spawn(20);
    let c = graph.spawn(30);
    assert_eq!(graph.len(), 3);
    assert_eq!((a, b, c), (0, 1, 2));
    assert_eq!(*graph.get_node(a).unwrap().value(), 10);
    assert_eq!(*graph.get_node(b).unwrap().value(), 20);
    assert_eq!(*graph.get_node(c).unwrap().value(), 30);
}

#[test]
fn every_back_reference_resolves_to_its_node() {
    let mut graph: Graph<&str> = Graph::new();
    let slots = [graph.spawn("a"), graph.spawn("b"), graph.spawn("c")];
    for slot in slots {
        assert_eq!(graph.get_node(slot).unwrap().get_parent(), slot);
    }
}

#[test]
fn get_node_rejects_a_slot_past_the_arena() {
    let mut graph: Graph<i32> = Graph::new();
    assert!(matches!(graph.get_node(0), Err(Error::IndexOutOfBounds)));
    graph.spawn(1);
    assert!(graph.get_node(0).is_ok());
    assert!(matches!(graph.get_node(1), Err(Error::IndexOutOfBounds)));
}

#[test]
fn edges_are_directed_and_weighted() {
    let mut graph: Graph<i32> = Graph::new();
    let a = graph.spawn(1);
    let b = graph.spawn(2);
    assert_eq!(graph.add_edge(a, b, 5), Ok(()));
    assert_eq!(graph.add_edge(a, a, 9), Ok(()));

    let out = graph.get_node(a).unwrap().edges();
    assert_eq!(out.len(), 2);
    assert_eq!(out[0].target(), b);
    assert_eq!(out[0].weight(), 5);
    assert_eq!(out[1].target(), a);
    assert_eq!(out[1].weight(), 9);

    assert_eq!(graph.get_node(b).unwrap().edges().len(), 0);
}

#[test]
fn add_edge_rejects_unknown_slots() {
    let mut graph: Graph<i32> = Graph::new();
    let a = graph.spawn(1);
    assert_eq!(graph.add_edge(a, 3, 1), Err(Error::IndexOutOfBounds));
    assert_eq!(graph.add_edge(3, a, 1), Err(Error::IndexOutOfBounds));
    assert_eq!(graph.get_node(a).unwrap().edges().len(), 0);
}

#[test]
fn edges_to_earlier_and_later_nodes() {
    let mut graph: Graph<char> = Graph::new();
    let first = graph.spawn('x');
    let second = graph.spawn('y');
    assert_eq!(graph.add_edge(second, first, 3), Ok(()));
    let edges = graph.get_node(second).unwrap().edges();
    assert_eq!(edges[0].target(), first);
    assert_eq!(edges[0].weight(), 3);
}
