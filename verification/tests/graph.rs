use simplicity::arrow::Arrow;
use simplicity::diagram::NodeId;
use simplicity::graph::Edge;
use simplicity::graph::Graph;

fn edges(graph: &Graph<NodeId, Arrow>, n: usize) -> Vec<(usize, usize, u8)> {
    let mut all = Vec::new();
    for a in 0..n {
        for b in 0..n {
            if let Some(e) = graph.get_edge(NodeId(a), NodeId(b)) {
                all.push((a, b, e.0));
            }
        }
    }
    all
}

fn compose(a: NodeId, x: Arrow, _b: NodeId, y: Arrow, c: NodeId) -> Option<Arrow> {
    if a != c {
        x.join(y)
    } else {
        None
    }
}

fn saturated(graph: &Graph<NodeId, Arrow>, n: usize) -> bool {
    for a in 0..n {
        for b in 0..n {
            for c in 0..n {
                let ab = graph.get_edge(NodeId(a), NodeId(b));
                let bc = graph.get_edge(NodeId(b), NodeId(c));
                if let (Some(ab), Some(bc)) = (ab, bc) {
                    if let Some(z) = compose(NodeId(a), ab, NodeId(b), bc, NodeId(c)) {
                        match graph.get_edge(NodeId(a), NodeId(c)) {
                            Some(ac) => {
                                if ac.merge(z) != ac {
                                    return false;
                                }
                            }
                            None => return false,
                        }
                    }
                }
            }
        }
    }
    true
}

#[test]
fn new_graph_is_empty() {
    let graph: Graph<NodeId, Arrow> = Graph::new();
    assert_eq!(graph.nodes.len(), 0);
    assert_eq!(graph.get_edge(NodeId(0), NodeId(0)), None);
    let other: Graph<NodeId, Arrow> = Graph::default();
    assert_eq!(other.nodes.len(), 0);
}

#[test]
fn insert_lays_the_edge_and_its_converse() {
    let mut graph: Graph<NodeId, Arrow> = Graph::new();
    graph.insert(NodeId(0), NodeId(1), Arrow(0b01001));
    assert_eq!(graph.get_edge(NodeId(0), NodeId(1)), Some(Arrow(0b01001)));
    assert_eq!(graph.get_edge(NodeId(1), NodeId(0)), Some(Arrow(0b10010)));
    assert_eq!(graph.get_edge(NodeId(0), NodeId(0)), None);
    assert_eq!(graph.get_edge(NodeId(1), NodeId(1)), None);
    assert_eq!(graph.nodes.len(), 2);
}

#[test]
fn insert_makes_both_ends_nodes() {
    let mut graph: Graph<NodeId, Arrow> = Graph::new();
    graph.insert(NodeId(2), NodeId(5), Arrow(1));
    assert_eq!(graph.nodes.len(), 6);
    assert_eq!(edges(&graph, 6), vec![(2, 5, 1), (5, 2, 16)]);
    graph.insert(NodeId(7), NodeId(0), Arrow(4));
    assert_eq!(graph.nodes.len(), 8);
    assert_eq!(edges(&graph, 8), vec![(0, 7, 4), (2, 5, 1), (5, 2, 16), (7, 0, 4)]);
}

#[test]
fn insert_on_the_same_pair_narrows() {
    let mut graph: Graph<NodeId, Arrow> = Graph::new();
    graph.insert(NodeId(0), NodeId(1), Arrow(0b01011));
    graph.insert(NodeId(0), NodeId(1), Arrow(0b00111));
    assert_eq!(graph.get_edge(NodeId(0), NodeId(1)), Some(Arrow(0b00011)));
    assert_eq!(graph.get_edge(NodeId(1), NodeId(0)), Some(Arrow(0b11000)));
    // from the other end: the converse of the new relation narrows the edge
    graph.insert(NodeId(1), NodeId(0), Arrow(0b10001));
    assert_eq!(graph.get_edge(NodeId(0), NodeId(1)), Some(Arrow(0b00001)));
    assert_eq!(graph.get_edge(NodeId(1), NodeId(0)), Some(Arrow(0b10000)));
    // two relations that share nothing leave the empty relation
    graph.insert(NodeId(0), NodeId(1), Arrow(0b00100));
    assert_eq!(graph.get_edge(NodeId(0), NodeId(1)), Some(Arrow(0)));
    assert_eq!(graph.get_edge(NodeId(1), NodeId(0)), Some(Arrow(0)));
}

#[test]
fn repeated_insert_never_widens() {
    let mut state: u32 = 12345;
    let mut graph: Graph<NodeId, Arrow> = Graph::new();
    let mut last: Option<u32> = None;
    for _ in 0..40 {
        state = state.wrapping_mul(1103515245).wrapping_add(12345);
        let bits = ((state >> 16) % 32) as u8;
        graph.insert(NodeId(3), NodeId(1), Arrow(bits));
        let now = graph.get_edge(NodeId(3), NodeId(1)).unwrap().0.count_ones();
        if let Some(before) = last {
            assert!(now <= before);
        }
        last = Some(now);
    }
}

#[test]
fn closure_derives_the_missing_edges() {
    let mut graph: Graph<NodeId, Arrow> = Graph::new();
    graph.insert(NodeId(0), NodeId(1), Arrow(1));
    graph.insert(NodeId(1), NodeId(2), Arrow(0b01001));
    graph.insert(NodeId(1), NodeId(3), Arrow(0b01001));
    graph.insert(NodeId(4), NodeId(0), Arrow(0b00100));
    graph.closure(compose);
    let expected: Vec<(usize, usize, u8)> = vec![
        (0, 1, 1),
        (0, 2, 26),
        (0, 3, 26),
        (0, 4, 4),
        (1, 0, 16),
        (1, 2, 9),
        (1, 3, 9),
        (1, 4, 4),
        (2, 0, 11),
        (2, 1, 18),
        (2, 4, 7),
        (3, 0, 11),
        (3, 1, 18),
        (3, 4, 7),
        (4, 0, 4),
        (4, 1, 4),
        (4, 2, 28),
        (4, 3, 28),
    ];
    assert_eq!(edges(&graph, 5), expected);
    assert_eq!(graph.nodes.len(), 5);
    assert!(saturated(&graph, 5));
}

#[test]
fn closure_finds_the_contradiction() {
    let mut graph: Graph<NodeId, Arrow> = Graph::new();
    graph.insert(NodeId(0), NodeId(2), Arrow(0b00001));
    graph.insert(NodeId(1), NodeId(2), Arrow(0b10000));
    graph.insert(NodeId(0), NodeId(1), Arrow(0b00100));
    graph.closure(compose);
    let expected: Vec<(usize, usize, u8)> =
        vec![(0, 1, 0), (0, 2, 1), (1, 0, 0), (1, 2, 16), (2, 0, 16), (2, 1, 1)];
    assert_eq!(edges(&graph, 3), expected);
}

#[test]
fn closure_with_a_silent_callback_changes_nothing() {
    let mut graph: Graph<NodeId, Arrow> = Graph::new();
    graph.insert(NodeId(0), NodeId(1), Arrow(1));
    graph.insert(NodeId(1), NodeId(2), Arrow(9));
    let before = edges(&graph, 3);
    graph.closure(|_a, _x, _b, _y, _c| None);
    assert_eq!(edges(&graph, 3), before);
}

#[test]
fn closure_on_an_empty_graph() {
    let mut graph: Graph<NodeId, Arrow> = Graph::new();
    graph.closure(compose);
    assert_eq!(graph.nodes.len(), 0);
}

#[test]
fn closure_is_idempotent_and_only_narrows() {
    let mut state: u32 = 2024;
    for _ in 0..200 {
        let mut graph: Graph<NodeId, Arrow> = Graph::new();
        let mut next = || {
            state = state.wrapping_mul(1103515245).wrapping_add(12345);
            (state >> 16) as usize
        };
        let n = 2 + next() % 6;
        let count = 1 + next() % 10;
        for _ in 0..count {
            let a = next() % n;
            let b = next() % n;
            if a != b {
                graph.insert(NodeId(a), NodeId(b), Arrow((1 + next() % 31) as u8));
            }
        }
        let before = edges(&graph, n);
        graph.closure(compose);
        let after = edges(&graph, n);
        assert!(saturated(&graph, n));
        for (a, b, e) in &before {
            let now = graph.get_edge(NodeId(*a), NodeId(*b)).unwrap().0;
            assert_eq!(now & e, now);
        }
        for (a, b, e) in &after {
            let back = graph.get_edge(NodeId(*b), NodeId(*a)).unwrap();
            assert_eq!(Arrow(*e).converse(), Some(back));
        }
        graph.closure(compose);
        assert_eq!(edges(&graph, n), after);
    }
}
