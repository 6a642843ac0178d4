use simplicity::arrow::Arrow;
use simplicity::ast::Var;
use simplicity::diagram::path_rule;
use simplicity::diagram::Diagram;
use simplicity::diagram::NodeId;
use simplicity::diagram::NodeType;

fn edges_of(diagram: &Diagram) -> Vec<(usize, usize, u8)> {
    let n = diagram.nodes.len();
    let mut all = Vec::new();
    for a in 0..n {
        for b in 0..n {
            if let Some(e) = diagram.graph.get_edge(NodeId(a), NodeId(b)) {
                all.push((a, b, e.0));
            }
        }
    }
    all
}

fn roles_of(diagram: &Diagram) -> Vec<NodeType> {
    diagram.nodes.values().into_iter().copied().collect()
}

#[test]
fn two_agents_without_auxiliary_ports() {
    let mut diagram = Diagram::default();
    diagram.insert_agent(&[Var(0)], &[]);
    diagram.insert_agent(&[Var(0)], &[]);
    assert_eq!(roles_of(&diagram), vec![NodeType::Principal, NodeType::Principal]);
    assert_eq!(edges_of(&diagram), vec![(0, 1, 0b00100), (1, 0, 0b00100)]);
    assert!(diagram.vars.is_empty());
    diagram.complete();
    assert_eq!(edges_of(&diagram), vec![(0, 1, 0b00100), (1, 0, 0b00100)]);
    assert!(!diagram.is_contradictory());
    assert!(diagram.is_complete());
}

#[test]
fn two_agents_wired_onto_each_other() {
    let mut diagram = Diagram::default();
    diagram.insert_agent(&[Var(7)], &[]);
    diagram.insert_agent(&[Var(7)], &[]);
    // the same wire once more, from the other end
    diagram.link(NodeId(0), NodeId(1));
    assert_eq!(edges_of(&diagram), vec![(0, 1, 0b00100), (1, 0, 0b00100)]);
    diagram.complete();
    assert_eq!(edges_of(&diagram), vec![(0, 1, 0b00100), (1, 0, 0b00100)]);
    assert!(!diagram.is_contradictory());
    assert!(diagram.is_complete());
    diagram.complete();
    assert_eq!(edges_of(&diagram), vec![(0, 1, 0b00100), (1, 0, 0b00100)]);
}

#[test]
fn two_partitions_that_exclude_each_other() {
    let mut diagram = Diagram::default();
    // two partitions, each with one free port, and the two ports on one wire
    diagram.insert_free_ports(&[Var(0)], &[1]);
    diagram.insert_free_ports(&[Var(1)], &[1]);
    assert_eq!(
        roles_of(&diagram),
        vec![NodeType::Partition, NodeType::Principal, NodeType::Partition, NodeType::Principal]
    );
    // both partitions relate to the first port, by relations that exclude
    // each other once the partitions are the same
    diagram.graph.insert(NodeId(2), NodeId(1), Arrow(0b10000));
    diagram.graph.insert(NodeId(0), NodeId(2), Arrow(0b00100));
    assert!(!diagram.is_contradictory());
    diagram.complete();
    assert!(diagram.is_contradictory());
    assert!(edges_of(&diagram).iter().any(|edge| edge.2 == 0));
    assert!(diagram.is_complete());
}

#[test]
fn complete_leaves_a_fixpoint() {
    let mut diagram = Diagram::default();
    diagram.insert_agent(&[Var(0), Var(1), Var(2)], &[2]);
    diagram.insert_agent(&[Var(1)], &[]);
    diagram.insert_agent(&[Var(2)], &[]);
    assert!(!diagram.is_complete());
    diagram.complete();
    assert!(diagram.is_complete());
    assert!(!diagram.is_contradictory());
    let first = edges_of(&diagram);
    diagram.complete();
    assert!(diagram.is_complete());
    assert_eq!(edges_of(&diagram), first);
}

#[test]
fn agent_layout() {
    let mut diagram = Diagram::default();
    diagram.insert_agent(&[Var(0), Var(1), Var(2)], &[2]);
    assert_eq!(
        roles_of(&diagram),
        vec![NodeType::Principal, NodeType::Partition, NodeType::Auxiliary, NodeType::Auxiliary]
    );
    assert_eq!(
        edges_of(&diagram),
        vec![
            (0, 1, 0b00001),
            (1, 0, 0b10000),
            (1, 2, 0b01001),
            (1, 3, 0b01001),
            (2, 1, 0b10010),
            (3, 1, 0b10010),
        ]
    );
    assert_eq!(diagram.vars.get(&0), Some(&NodeId(0)));
    assert_eq!(diagram.vars.get(&1), Some(&NodeId(2)));
    assert_eq!(diagram.vars.get(&2), Some(&NodeId(3)));
    assert_eq!(diagram.vars.len(), 3);
}

#[test]
fn agent_with_several_groups() {
    let mut diagram = Diagram::default();
    diagram.insert_agent(&[Var(0), Var(1), Var(2), Var(3)], &[1, 0, 2]);
    assert_eq!(
        roles_of(&diagram),
        vec![
            NodeType::Principal,
            NodeType::Partition,
            NodeType::Auxiliary,
            NodeType::Partition,
            NodeType::Partition,
            NodeType::Auxiliary,
            NodeType::Auxiliary,
        ]
    );
    assert_eq!(
        edges_of(&diagram),
        vec![
            (0, 1, 1),
            (0, 3, 1),
            (0, 4, 1),
            (1, 0, 16),
            (1, 2, 9),
            (2, 1, 18),
            (3, 0, 16),
            (4, 0, 16),
            (4, 5, 9),
            (4, 6, 9),
            (5, 4, 18),
            (6, 4, 18),
        ]
    );
}

#[test]
fn free_port_layout() {
    let mut diagram = Diagram::default();
    diagram.insert_free_ports(&[Var(0), Var(1), Var(2)], &[1, 2]);
    assert_eq!(
        roles_of(&diagram),
        vec![
            NodeType::Partition,
            NodeType::Principal,
            NodeType::Partition,
            NodeType::Principal,
            NodeType::Principal,
        ]
    );
    assert_eq!(
        edges_of(&diagram),
        vec![(0, 1, 1), (1, 0, 16), (2, 3, 1), (2, 4, 1), (3, 2, 16), (4, 2, 16)]
    );
    assert_eq!(diagram.vars.get(&0), Some(&NodeId(1)));
    assert_eq!(diagram.vars.get(&1), Some(&NodeId(3)));
    assert_eq!(diagram.vars.get(&2), Some(&NodeId(4)));
}

#[test]
fn free_ports_of_nothing() {
    let mut diagram = Diagram::default();
    diagram.insert_free_ports(&[], &[]);
    assert_eq!(diagram.nodes.len(), 0);
    diagram.insert_free_ports(&[], &[0, 0]);
    assert_eq!(roles_of(&diagram), vec![NodeType::Partition, NodeType::Partition]);
    assert_eq!(edges_of(&diagram), vec![]);
}

#[test]
fn wires_by_role() {
    let mut diagram = Diagram::default();
    // 0 principal, 1 partition, 2 and 3 auxiliary
    diagram.insert_agent(&[Var(0), Var(1), Var(2)], &[2]);
    // 4 principal
    diagram.insert_agent(&[Var(3)], &[]);
    diagram.link(NodeId(0), NodeId(4));
    assert_eq!(diagram.graph.get_edge(NodeId(0), NodeId(4)), Some(Arrow(0b00100)));
    assert_eq!(diagram.graph.get_edge(NodeId(4), NodeId(0)), Some(Arrow(0b00100)));
    diagram.link(NodeId(4), NodeId(2));
    assert_eq!(diagram.graph.get_edge(NodeId(4), NodeId(2)), Some(Arrow(0b10001)));
    assert_eq!(diagram.graph.get_edge(NodeId(2), NodeId(4)), Some(Arrow(0b10001)));
    diagram.link(NodeId(3), NodeId(4));
    assert_eq!(diagram.graph.get_edge(NodeId(3), NodeId(4)), Some(Arrow(0b01001)));
    assert_eq!(diagram.graph.get_edge(NodeId(4), NodeId(3)), Some(Arrow(0b10010)));
    diagram.link(NodeId(2), NodeId(3));
    assert_eq!(diagram.graph.get_edge(NodeId(2), NodeId(3)), Some(Arrow(0b01001)));
    assert_eq!(diagram.graph.get_edge(NodeId(3), NodeId(2)), Some(Arrow(0b10010)));
}

#[test]
fn a_variable_seen_twice_is_a_wire() {
    let mut diagram = Diagram::default();
    diagram.insert_agent(&[Var(0), Var(1), Var(2)], &[2]);
    diagram.insert_agent(&[Var(1)], &[]);
    diagram.insert_agent(&[Var(2)], &[]);
    assert_eq!(
        edges_of(&diagram),
        vec![
            (0, 1, 1),
            (1, 0, 16),
            (1, 2, 9),
            (1, 3, 9),
            (2, 1, 18),
            (2, 4, 17),
            (3, 1, 18),
            (3, 5, 17),
            (4, 2, 17),
            (5, 3, 17),
        ]
    );
    // the first variable still waits for its second port
    assert_eq!(diagram.vars.len(), 1);
    assert_eq!(diagram.vars.get(&0), Some(&NodeId(0)));
}

#[test]
fn free_ports_and_an_agent() {
    let mut diagram = Diagram::default();
    diagram.insert_free_ports(&[Var(1)], &[1]);
    diagram.insert_free_ports(&[Var(2)], &[1]);
    diagram.insert_agent(&[Var(1), Var(2)], &[1]);
    assert_eq!(
        edges_of(&diagram),
        vec![
            (0, 1, 1),
            (1, 0, 16),
            (1, 4, 4),
            (2, 3, 1),
            (3, 2, 16),
            (3, 6, 18),
            (4, 1, 4),
            (4, 5, 1),
            (5, 4, 16),
            (5, 6, 9),
            (6, 3, 9),
            (6, 5, 18),
        ]
    );
    assert!(diagram.vars.is_empty());
    diagram.complete();
    assert!(diagram.is_complete());
    assert!(!diagram.is_contradictory());
}

#[test]
fn an_empty_diagram_is_complete() {
    let mut diagram = Diagram::default();
    assert!(diagram.is_complete());
    assert!(!diagram.is_contradictory());
    diagram.complete();
    assert!(diagram.is_complete());
    assert!(!diagram.is_contradictory());
}

#[test]
fn is_complete_counts_a_missing_edge_as_no_knowledge() {
    let mut diagram = Diagram::default();
    diagram.graph.insert(NodeId(0), NodeId(1), Arrow(0b00001));
    diagram.graph.insert(NodeId(1), NodeId(2), Arrow(0b00001));
    // the path says much-after or after, and there is no edge to say so
    assert!(!diagram.is_complete());
    diagram.graph.insert(NodeId(0), NodeId(2), Arrow(0b00010));
    assert!(diagram.is_complete());
    // two edges whose composition says nothing ask for no third edge
    let mut other = Diagram::default();
    other.graph.insert(NodeId(0), NodeId(1), Arrow(0b00100));
    other.graph.insert(NodeId(1), NodeId(2), Arrow(0b00100));
    assert!(other.is_complete());
}

#[test]
fn is_contradictory_sees_an_empty_relation() {
    let mut diagram = Diagram::default();
    diagram.graph.insert(NodeId(0), NodeId(1), Arrow(0b00001));
    assert!(!diagram.is_contradictory());
    diagram.graph.insert(NodeId(0), NodeId(1), Arrow(0b00010));
    assert!(diagram.is_contradictory());
}

#[test]
fn path_rule_composes_between_different_nodes() {
    let got = path_rule(NodeId(0), Arrow(1), NodeId(1), Arrow(9), NodeId(2));
    assert_eq!(got, Some(Arrow(26)));
    let same = path_rule(NodeId(3), Arrow(1), NodeId(1), Arrow(9), NodeId(3));
    assert_eq!(same, None);
    let full = path_rule(NodeId(0), Arrow(4), NodeId(1), Arrow(4), NodeId(2));
    assert_eq!(full, None);
}

fn complete_by_hand(diagram: &Diagram, n: usize) -> bool {
    for a in 0..n {
        for b in 0..n {
            for c in 0..n {
                let ab = diagram.graph.get_edge(NodeId(a), NodeId(b));
                let bc = diagram.graph.get_edge(NodeId(b), NodeId(c));
                if let (Some(ab), Some(bc)) = (ab, bc) {
                    if a != c {
                        let ac = diagram.graph.get_edge(NodeId(a), NodeId(c)).unwrap_or(Arrow(31));
                        let path = ab.join(bc).unwrap_or(Arrow(31));
                        if ac.0 & path.0 != ac.0 {
                            return false;
                        }
                    }
                }
            }
        }
    }
    true
}

#[test]
fn verdicts_agree_with_a_search_by_hand() {
    let mut state: u32 = 99;
    let mut seen_contradiction = false;
    let mut seen_incomplete = false;
    for _ in 0..300 {
        let mut next = || {
            state = state.wrapping_mul(1103515245).wrapping_add(12345);
            (state >> 16) as usize
        };
        let n = 2 + next() % 5;
        let mut diagram = Diagram::default();
        for _ in 0..n {
            diagram.nodes.push(NodeType::Principal);
        }
        let count = 1 + next() % 8;
        for _ in 0..count {
            let a = next() % n;
            let b = next() % n;
            if a != b {
                diagram.graph.insert(NodeId(a), NodeId(b), Arrow((1 + next() % 31) as u8));
            }
        }
        let empty = edges_of(&diagram).iter().any(|edge| edge.2 == 0);
        assert_eq!(diagram.is_contradictory(), empty);
        assert_eq!(diagram.is_complete(), complete_by_hand(&diagram, n));
        seen_incomplete |= !diagram.is_complete();
        diagram.complete();
        let empty = edges_of(&diagram).iter().any(|edge| edge.2 == 0);
        assert_eq!(diagram.is_contradictory(), empty);
        assert!(complete_by_hand(&diagram, n));
        assert!(diagram.is_complete());
        seen_contradiction |= empty;
    }
    assert!(seen_contradiction);
    assert!(seen_incomplete);
}
