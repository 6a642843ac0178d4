use simplicity::ast::Agent;
use simplicity::ast::AgentDef;
use simplicity::ast::NetDef;
use simplicity::ast::Node;
use simplicity::ast::RuleDef;
use simplicity::ast::System;
use simplicity::ast::Var;
use simplicity::diagram::Diagram;
use simplicity::diagram::NodeId;
use simplicity::diagram::NodeType;
use simplicity::scope::Scope;
use simplicity::verdict::check_net;
use simplicity::verdict::check_node;
use simplicity::verdict::check_rule;
use simplicity::verdict::flatten;
use simplicity::verdict::group_sizes;
use simplicity::verdict::is_simple;
use simplicity::verdict::net_diagram;
use simplicity::verdict::net_is_simple;
use simplicity::verdict::rule_diagram;
use simplicity::verdict::rule_is_simple;

fn agent(groups: &[usize]) -> AgentDef {
    AgentDef { auxiliary: groups.iter().map(|n| vec![(); *n]).collect() }
}

fn system() -> System {
    let mut agents: Scope<Agent, AgentDef> = Scope::default();
    // 0: no auxiliary port; 1: one group of one; 2: one group of two;
    // 3: two groups of one
    agents.define(String::from("e"), agent(&[]));
    agents.define(String::from("s"), agent(&[1]));
    agents.define(String::from("c"), agent(&[2]));
    agents.define(String::from("d"), agent(&[1, 1]));
    System { agents, rules: Vec::new(), nets: Vec::new() }
}

fn node(agent: usize, ports: &[usize]) -> Node {
    Node { agent: Agent(agent), ports: ports.iter().map(|v| Var(*v)).collect() }
}

fn edges_of(diagram: &Diagram) -> Vec<(usize, usize, u8)> {
    let n = diagram.nodes.len();
    let mut all = Vec::new();
    for a in 0..n {
        for b in 0..n {
            if let Some(e) = diagram.graph.get_edge(NodeId(a), NodeId(b)) {
                all.push((a, b, e.0));
            }
        }
    }
    all
}

#[test]
fn group_sizes_and_flatten() {
    let groups = vec![vec![Var(3)], vec![], vec![Var(1), Var(2)]];
    assert_eq!(group_sizes(&groups), vec![1, 0, 2]);
    assert_eq!(flatten(&groups), vec![Var(3), Var(1), Var(2)]);
    let none: Vec<Vec<Var>> = Vec::new();
    assert_eq!(group_sizes(&none), Vec::<usize>::new());
    assert_eq!(flatten(&none), Vec::<Var>::new());
}

#[test]
fn check_node_counts_the_ports() {
    let system = system();
    assert!(check_node(&system, &node(0, &[0])));
    assert!(!check_node(&system, &node(0, &[])));
    assert!(!check_node(&system, &node(0, &[0, 1])));
    assert!(check_node(&system, &node(2, &[0, 1, 2])));
    assert!(!check_node(&system, &node(2, &[0, 1])));
    assert!(check_node(&system, &node(3, &[0, 1, 2])));
    assert!(!check_node(&system, &node(3, &[0, 1, 2, 3])));
    // an agent that is not defined
    assert!(!check_node(&system, &node(4, &[0])));
}

#[test]
fn check_rule_and_net() {
    let system = system();
    let good = RuleDef {
        vars: Scope::default(),
        a: node(1, &[0, 1]),
        b: node(0, &[0]),
        result: vec![node(0, &[1])],
    };
    assert!(check_rule(&system, &good));
    let bad = RuleDef {
        vars: Scope::default(),
        a: node(1, &[0, 1]),
        b: node(0, &[0]),
        result: vec![node(1, &[1])],
    };
    assert!(!check_rule(&system, &bad));
    let net = NetDef {
        name: String::from("n"),
        vars: Scope::default(),
        ports: vec![vec![Var(0)]],
        nodes: vec![node(0, &[0])],
    };
    assert!(check_net(&system, &net));
    let worse = NetDef {
        name: String::from("n"),
        vars: Scope::default(),
        ports: vec![vec![Var(0)]],
        nodes: vec![node(9, &[0])],
    };
    assert!(!check_net(&system, &worse));
}

#[test]
fn rule_without_ports_is_simple() {
    let system = system();
    let rule = RuleDef {
        vars: Scope::default(),
        a: node(0, &[0]),
        b: node(0, &[0]),
        result: Vec::new(),
    };
    let diagram = rule_diagram(&system, &rule);
    assert_eq!(diagram.nodes.len(), 0);
    assert!(rule_is_simple(&system, &rule));
}

#[test]
fn rule_diagram_layout() {
    let system = system();
    // s(p, u) against s(p, v), rewritten into s(u, v)
    let rule = RuleDef {
        vars: Scope::default(),
        a: node(1, &[0, 1]),
        b: node(1, &[0, 2]),
        result: vec![node(1, &[1, 2])],
    };
    let diagram = rule_diagram(&system, &rule);
    let roles: Vec<NodeType> = diagram.nodes.values().into_iter().copied().collect();
    assert_eq!(
        roles,
        vec![
            NodeType::Partition,
            NodeType::Principal,
            NodeType::Partition,
            NodeType::Principal,
            NodeType::Principal,
            NodeType::Partition,
            NodeType::Auxiliary,
        ]
    );
    assert_eq!(
        edges_of(&diagram),
        vec![
            (0, 1, 1),
            (1, 0, 16),
            (1, 4, 4),
            (2, 3, 1),
            (3, 2, 16),
            (3, 6, 18),
            (4, 1, 4),
            (4, 5, 1),
            (5, 4, 16),
            (5, 6, 9),
            (6, 3, 9),
            (6, 5, 18),
        ]
    );
    assert!(diagram.vars.is_empty());
    assert!(rule_is_simple(&system, &rule));
}

#[test]
fn net_diagram_layout() {
    let system = system();
    let net = NetDef {
        name: String::from("pair"),
        vars: Scope::default(),
        ports: vec![vec![Var(0)], vec![Var(1), Var(2)]],
        nodes: vec![node(2, &[0, 1, 2])],
    };
    let diagram = net_diagram(&system, &net);
    let roles: Vec<NodeType> = diagram.nodes.values().into_iter().copied().collect();
    assert_eq!(
        roles,
        vec![
            NodeType::Partition,
            NodeType::Principal,
            NodeType::Partition,
            NodeType::Principal,
            NodeType::Principal,
            NodeType::Principal,
            NodeType::Partition,
            NodeType::Auxiliary,
            NodeType::Auxiliary,
        ]
    );
    assert_eq!(diagram.graph.get_edge(NodeId(5), NodeId(1)), Some(simplicity::arrow::Arrow(4)));
    assert_eq!(diagram.graph.get_edge(NodeId(7), NodeId(3)), Some(simplicity::arrow::Arrow(9)));
    assert_eq!(diagram.graph.get_edge(NodeId(8), NodeId(4)), Some(simplicity::arrow::Arrow(9)));
    assert!(diagram.vars.is_empty());
    let simple = net_is_simple(&system, &net);
    let mut again = net_diagram(&system, &net);
    assert_eq!(is_simple(&mut again), simple);
    assert!(again.is_complete());
    assert_eq!(again.is_contradictory(), !simple);
}

#[test]
fn is_simple_says_no_to_a_contradiction() {
    let mut diagram = Diagram::default();
    diagram.insert_free_ports(&[Var(0)], &[1]);
    diagram.insert_free_ports(&[Var(1)], &[1]);
    diagram.graph.insert(NodeId(2), NodeId(1), simplicity::arrow::Arrow(0b10000));
    diagram.graph.insert(NodeId(0), NodeId(2), simplicity::arrow::Arrow(0b00100));
    assert!(!is_simple(&mut diagram));
    assert!(diagram.is_contradictory());
    let mut fine = Diagram::default();
    fine.insert_agent(&[Var(0)], &[]);
    fine.insert_agent(&[Var(0)], &[]);
    assert!(is_simple(&mut fine));
}
