use rusty_kan::error::KanError;
use rusty_kan::layer::Layer;
use rusty_kan::network::KAN;
use rusty_kan::node::Node;

fn link(start: usize, end: usize, layer: usize) -> (usize, usize, usize) {
    (start, end, layer)
}

#[test]
fn kan_new_pass() {
    // Edges: 0 feeds node 1, 1 joins node 1 to node 2, 2 leaves node 2.
    let edges = vec![link(0, 0, 0), link(0, 0, 1), link(0, 0, 2)];
    let layer_1 = Layer::new(vec![Node::new(vec![0], vec![1], 0)]);
    let layer_2 = Layer::new(vec![Node::new(vec![1], vec![2], 1)]);
    let layers = vec![layer_1, layer_2];
    let kan = KAN::new(edges, layers.clone()).unwrap();
    assert_eq!(kan.layers.len(), layers.len());
}

#[test]
fn kan_standard_pass() {
    let kan = KAN::standard(1, 1, link);
    assert_eq!(kan.layers.len(), 2);
    assert_eq!(kan.layers[0].nodes.len(), 1);
    assert_eq!(kan.layers[1].nodes.len(), 1);
}

#[test]
fn kan_new_refuses_a_dangling_edge() {
    let layer = Layer::new(vec![Node::new(vec![0], vec![3], 0)]);
    let r = KAN::new(vec![link(0, 0, 0)], vec![layer]);
    assert_eq!(r.map(|k| k.layers.len()), Err(KanError::IndexOutOfRange));
}

#[test]
fn kan_standard_wiring() {
    let kan = KAN::standard(2, 3, link);
    assert_eq!(kan.edges.len(), 2 * 3 + 3);
    assert_eq!(
        kan.edges,
        vec![
            (0, 0, 0), (0, 1, 0), (0, 2, 0),
            (1, 0, 0), (1, 1, 0), (1, 2, 0),
            (0, 0, 1), (1, 0, 1), (2, 0, 1),
        ]
    );
    let hidden = &kan.layers[0];
    assert_eq!(hidden.nodes.len(), 3);
    assert_eq!(hidden.nodes[0].incoming, vec![0, 3]);
    assert_eq!(hidden.nodes[1].incoming, vec![1, 4]);
    assert_eq!(hidden.nodes[2].incoming, vec![2, 5]);
    assert_eq!(hidden.nodes[2].outgoing, vec![8]);
    assert!(hidden.nodes.iter().all(|n| n.layer == 1));
    let output = &kan.layers[1].nodes[0];
    assert_eq!(output.incoming, vec![6, 7, 8]);
    assert!(output.outgoing.is_empty());
    assert_eq!(output.layer, 2);
}

#[test]
fn kan_standard_without_hidden_nodes() {
    let kan = KAN::standard(4, 0, link);
    assert_eq!(kan.edges.len(), 0);
    assert_eq!(kan.layers[0].nodes.len(), 0);
    assert!(kan.layers[1].nodes[0].incoming.is_empty());
}

#[test]
fn kan_add_edge_and_layer() {
    let mut kan: KAN<(usize, usize, usize)> = KAN::new(vec![], vec![]).unwrap();
    let e = kan.add_edge(link(0, 0, 0));
    assert_eq!(e, 0);
    let bad = Layer::new(vec![Node::new(vec![1], vec![], 0)]);
    assert_eq!(kan.add_layer(bad), Err(KanError::IndexOutOfRange));
    assert_eq!(kan.layers.len(), 0);
    let good = Layer::new(vec![Node::new(vec![0], vec![], 0)]);
    assert_eq!(kan.add_layer(good), Ok(()));
    assert_eq!(kan.layers.len(), 1);
}

use rusty_kan::matrix::Matrix;
use rusty_kan::vector::Vector;

fn rows(values: Vec<Vec<i64>>) -> Matrix<i64> {
    Matrix::new(values.into_iter().map(Vector::new).collect())
}

fn add(x: i64, y: i64) -> i64 {
    x + y
}

// Three layers of 2, 2 and 1 nodes over edges 0..=6.
fn three_layers() -> KAN<(usize, usize, usize)> {
    let edges = (0..7).map(|e| link(e, e, 0)).collect();
    let l0 = Layer::new(vec![Node::new(vec![0], vec![], 0), Node::new(vec![1, 2], vec![], 0)]);
    let l1 = Layer::new(vec![Node::new(vec![3], vec![], 1), Node::new(vec![4], vec![], 1)]);
    let l2 = Layer::new(vec![Node::new(vec![5, 6], vec![], 2)]);
    KAN::new(edges, vec![l0, l1, l2]).unwrap()
}

#[test]
fn backward_walk_starts_at_the_last_layer_and_spreads_the_sum() {
    let kan = three_layers();
    let input = rows(vec![vec![10], vec![11, 12]]);
    let outputs = vec![rows(vec![vec![20], vec![21]]), rows(vec![vec![30, 31]]), rows(vec![vec![]])];
    let walk = kan.backward_routes(&input, &outputs, 5, 0, &add).unwrap();
    assert_eq!(walk.len(), 3);
    // Last layer: its input is the middle layer's output, its gradient [5].
    assert_eq!(walk[0], vec![vec![(5, 30, 5), (6, 31, 5)]]);
    // Middle layer: one copy of the sum 5 per node.
    assert_eq!(walk[1], vec![vec![(3, 20, 5)], vec![(4, 21, 5)]]);
    // First layer: the network input, one copy of 5 + 5 per node.
    assert_eq!(walk[2], vec![vec![(0, 10, 10)], vec![(1, 11, 10), (2, 12, 10)]]);
}

#[test]
fn backward_walk_refuses_misfitting_shapes() {
    let kan = three_layers();
    let input = rows(vec![vec![10], vec![11, 12]]);
    let good = vec![rows(vec![vec![20], vec![21]]), rows(vec![vec![30, 31]]), rows(vec![vec![]])];
    let bad_middle = vec![rows(vec![vec![20]]), rows(vec![vec![30, 31]]), rows(vec![vec![]])];
    assert_eq!(kan.backward_routes(&input, &bad_middle, 5, 0, &add), Err(KanError::ShapeMismatch));
    let bad_input = rows(vec![vec![10, 1], vec![11, 12]]);
    assert_eq!(kan.backward_routes(&bad_input, &good, 5, 0, &add), Err(KanError::ShapeMismatch));
    assert!(kan.backward_routes(&input, &good, 5, 0, &add).is_ok());
}

#[test]
fn backward_walk_needs_a_single_output_node() {
    let edges = vec![link(0, 0, 0), link(1, 0, 0)];
    let wide = Layer::new(vec![Node::new(vec![0], vec![], 0), Node::new(vec![1], vec![], 0)]);
    let kan = KAN::new(edges, vec![wide]).unwrap();
    let input = rows(vec![vec![1], vec![2]]);
    assert_eq!(kan.backward_routes(&input, &vec![rows(vec![])], 5, 0, &add), Err(KanError::ShapeMismatch));
}

#[test]
fn backward_walk_of_no_layers_is_empty() {
    let kan: KAN<(usize, usize, usize)> = KAN::new(vec![], vec![]).unwrap();
    let walk = kan.backward_routes(&rows(vec![]), &vec![], 5, 0, &add).unwrap();
    assert!(walk.is_empty());
}

#[test]
fn standard_network_backward_walk() {
    let kan = KAN::standard(2, 1, link);
    let input = rows(vec![vec![3, 4]]);
    let outputs = vec![rows(vec![vec![7]]), rows(vec![vec![]])];
    let walk = kan.backward_routes(&input, &outputs, -2, 0, &add).unwrap();
    assert_eq!(walk, vec![vec![vec![(2, 7, -2)]], vec![vec![(0, 3, -2), (1, 4, -2)]]]);
}
