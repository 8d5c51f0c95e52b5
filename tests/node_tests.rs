use rusty_kan::error::KanError;
use rusty_kan::node::Node;
use rusty_kan::vector::Vector;

// Arena indices: incoming edges 0 and 1, outgoing edge 2.
fn two_input_node() -> Node {
    Node::new(vec![0, 1], vec![2], 0)
}

#[test]
fn node_new_pass() {
    let node = two_input_node();
    assert_eq!(node.incoming.len(), 2);
    assert_eq!(node.outgoing.len(), 1);
    assert_eq!(node.layer, 0);
}

#[test]
fn node_add_incoming_pass() {
    let mut node = two_input_node();
    node.add_incoming(3);
    assert_eq!(node.incoming.len(), 3);
    assert_eq!(node.incoming, vec![0, 1, 3]);
    assert_eq!(node.outgoing, vec![2]);
}

#[test]
fn node_add_outgoing_pass() {
    let mut node = two_input_node();
    node.add_outgoing(4);
    assert_eq!(node.outgoing.len(), 2);
    assert_eq!(node.outgoing, vec![2, 4]);
    assert_eq!(node.incoming, vec![0, 1]);
}

#[test]
#[should_panic]
fn node_forward_fail() {
    let node = two_input_node();
    let input = Vector::new(vec![0.0, 1.0, 2.0]);
    let _ = node.route(&input).unwrap();
}

#[test]
#[should_panic]
fn node_backward_fail() {
    let node = two_input_node();
    let inputs = Vector::new(vec![0.0]);
    let _ = node.route_backward(&inputs, 0.5).unwrap();
}

#[test]
fn node_route_pairs_each_edge_with_its_input() {
    let node = Node::new(vec![7, 3], vec![], 1);
    let routes = node.route(&Vector::new(vec![0.25, 0.75])).unwrap();
    assert_eq!(routes, vec![(7, 0.25), (3, 0.75)]);
}

#[test]
fn node_route_refuses_short_and_long_inputs() {
    let node = two_input_node();
    assert_eq!(node.route(&Vector::new(vec![0.5])), Err(KanError::ShapeMismatch));
    assert_eq!(node.route(&Vector::new(vec![0.5, 0.5, 0.5])), Err(KanError::ShapeMismatch));
}

#[test]
fn node_route_backward_shares_the_upstream_gradient() {
    let node = two_input_node();
    let routes = node.route_backward(&Vector::new(vec![0.5, 1.0]), 0.25).unwrap();
    assert_eq!(routes, vec![(0, 0.5, 0.25), (1, 1.0, 0.25)]);
}

#[test]
fn node_without_inputs_routes_nothing() {
    let node = Node::new(vec![], vec![0], 0);
    assert_eq!(node.route(&Vector::<f64>::new(vec![])).unwrap().len(), 0);
}
