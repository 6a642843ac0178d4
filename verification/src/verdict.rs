//! From a rule or net to its diagram and to the verdict.

use crate::arrow::Arrow;
use crate::ast::AgentDef;
use crate::ast::NetDef;
use crate::ast::Node;
use crate::ast::RuleDef;
use crate::ast::System;
use crate::ast::Var;
use crate::diagram::complete;
use crate::diagram::contradictory;
use crate::diagram::Diagram;
use crate::diagram::NodeId;
use crate::diagram::path_rule;
use crate::diagram::total_size;
use crate::diagram::Wiring;
use crate::graph::Edges;
use crate::graph::propagation::propagates;
use crate::scope::Definition;
use vstd::prelude::*;
use vstd::slice::slice_subrange;

verus! {

/// The size of each group.
pub open spec fn sizes<T>(groups: Seq<Vec<T>>) -> Seq<usize> {
    Seq::new(groups.len(), |i: int| groups[i].len())
}

/// The groups laid end to end.
pub open spec fn flat<T>(groups: Seq<Vec<T>>) -> Seq<T>
    decreases groups.len(),
{
    if groups.len() == 0 {
        Seq::empty()
    } else {
        groups[0]@ + flat(groups.skip(1))
    }
}

/// The agent of the occurrence is defined, and the occurrence has one
/// variable for the principal port and one for each auxiliary port.
pub open spec fn node_fits(agents: Seq<Definition<AgentDef>>, node: Node) -> bool {
    node.agent.0 < agents.len() && node.ports@.len() == 1 + total_size(
        sizes(agents[node.agent.0 as int].value.auxiliary@),
    )
}

/// Every occurrence fits.
pub open spec fn nodes_fit(agents: Seq<Definition<AgentDef>>, nodes: Seq<Node>) -> bool {
    forall|i: int| 0 <= i < nodes.len() ==> node_fits(agents, #[trigger] nodes[i])
}

/// Both agents of the rule and every agent of its result fit.
pub open spec fn rule_fits(system: System, rule: RuleDef) -> bool {
    &&& node_fits(system.agents.defs@, rule.a)
    &&& node_fits(system.agents.defs@, rule.b)
    &&& nodes_fit(system.agents.defs@, rule.result@)
}

/// Every agent of the net fits.
pub open spec fn net_fits(system: System, net: NetDef) -> bool {
    nodes_fit(system.agents.defs@, net.nodes@)
}

/// The wiring after each occurrence of `nodes` has been added in turn.
pub open spec fn with_agents(
    w: Wiring,
    agents: Seq<Definition<AgentDef>>,
    nodes: Seq<Node>,
) -> Wiring
    decreases nodes.len(),
{
    if nodes.len() == 0 {
        w
    } else {
        with_agents(
            w.agent(nodes[0].ports@, sizes(agents[nodes[0].agent.0 as int].value.auxiliary@)),
            agents,
            nodes.skip(1),
        )
    }
}

/// The wiring that holds nothing.
pub open spec fn blank() -> Wiring {
    Wiring { vars: Map::empty(), nodes: Seq::empty(), edges: Map::empty() }
}

/// The wiring of a rule: the auxiliary ports of the two agents that it
/// rewrites are free ports, and the agents of its result follow.
pub open spec fn rule_wiring(system: System, rule: RuleDef) -> Wiring {
    let agents = system.agents.defs@;
    with_agents(
        blank().free_ports(
            rule.a.ports@.skip(1),
            sizes(agents[rule.a.agent.0 as int].value.auxiliary@),
        ).free_ports(rule.b.ports@.skip(1), sizes(agents[rule.b.agent.0 as int].value.auxiliary@)),
        agents,
        rule.result@,
    )
}

/// The wiring of a net: its free ports, and its agents after them.
pub open spec fn net_wiring(system: System, net: NetDef) -> Wiring {
    with_agents(
        blank().free_ports(flat(net.ports@), sizes(net.ports@)),
        system.agents.defs@,
        net.nodes@,
    )
}

/// The groups laid end to end have as many elements as their sizes add up to.
pub proof fn lemma_flat_len<T>(groups: Seq<Vec<T>>)
    ensures
        flat(groups).len() == total_size(sizes(groups)),
    decreases groups.len(),
{
    if groups.len() > 0 {
        lemma_flat_len(groups.skip(1));
        assert(sizes(groups).skip(1) =~= sizes(groups.skip(1)));
        assert(sizes(groups)[0] == groups[0]@.len());
    }
}

/// The size of each group.
pub fn group_sizes<T>(groups: &Vec<Vec<T>>) -> (r: Vec<usize>)
    ensures
        r@ == sizes(groups@),
{
    let mut r: Vec<usize> = Vec::new();
    let mut i: usize = 0;
    while i < groups.len()
        invariant
            i <= groups@.len(),
            r@.len() == i,
            forall|j: int| 0 <= j < i ==> r@[j] == groups@[j].len(),
        decreases groups@.len() - i,
    {
        r.push(groups[i].len());
        i = i + 1;
    }
    assert(r@ =~= sizes(groups@));
    r
}

/// The variables of all groups, laid end to end.
pub fn flatten(groups: &Vec<Vec<Var>>) -> (r: Vec<Var>)
    ensures
        r@ == flat(groups@),
{
    let mut r: Vec<Var> = Vec::new();
    let mut i: usize = 0;
    assert(groups@.skip(0) =~= groups@);
    while i < groups.len()
        invariant
            i <= groups@.len(),
            flat(groups@) == r@ + flat(groups@.skip(i as int)),
        decreases groups@.len() - i,
    {
        let group = &groups[i];
        let ghost before = r@;
        let mut j: usize = 0;
        while j < group.len()
            invariant
                j <= group@.len(),
                r@ == before + group@.take(j as int),
            decreases group@.len() - j,
        {
            r.push(group[j]);
            assert(group@.take(j + 1) =~= group@.take(j as int).push(group@[j as int]));
            j = j + 1;
        }
        proof {
            assert(group@.take(group@.len() as int) =~= group@);
            let rest = groups@.skip(i as int);
            assert(rest[0] == *group);
            assert(rest.skip(1) =~= groups@.skip(i + 1));
            assert(before + (group@ + flat(rest.skip(1))) =~= (before + group@) + flat(rest.skip(1)));
        }
        i = i + 1;
    }
    assert(r@ + Seq::<Var>::empty() =~= r@);
    r
}

/// Whether an occurrence fits the definition of its agent.
pub fn check_node(system: &System, node: &Node) -> (r: bool)
    ensures
        r == node_fits(system.agents.defs@, *node),
{
    match system.agents.defs.get(node.agent) {
        Some(def) => {
            if node.ports.len() == 0 {
                return false;
            }
            let groups = &def.value.auxiliary;
            let ghost all = sizes(groups@);
            let mut left: usize = node.ports.len() - 1;
            let mut i: usize = 0;
            assert(all.skip(0) =~= all);
            while i < groups.len()
                invariant
                    i <= groups@.len(),
                    all == sizes(groups@),
                    node.agent.0 < system.agents.defs@.len(),
                    groups@ == system.agents.defs@[node.agent.0 as int].value.auxiliary@,
                    left <= node.ports@.len() - 1,
                    (node.ports@.len() - 1 == total_size(all)) <==> (left == total_size(
                        all.skip(i as int),
                    )),
                decreases groups@.len() - i,
            {
                let n: usize = groups[i].len();
                proof {
                    assert(all.skip(i as int)[0] == n);
                    assert(all.skip(i as int).skip(1) =~= all.skip(i + 1));
                }
                if left < n {
                    assert(total_size(all.skip(i as int)) >= n);
                    return false;
                }
                left = left - n;
                i = i + 1;
            }
            left == 0
        },
        None => false,
    }
}

/// Whether every occurrence fits the definition of its agent.
pub fn check_nodes(system: &System, nodes: &Vec<Node>) -> (r: bool)
    ensures
        r == nodes_fit(system.agents.defs@, nodes@),
{
    let mut i: usize = 0;
    while i < nodes.len()
        invariant
            i <= nodes@.len(),
            forall|j: int| 0 <= j < i ==> node_fits(system.agents.defs@, #[trigger] nodes@[j]),
        decreases nodes@.len() - i,
    {
        if !check_node(system, &nodes[i]) {
            return false;
        }
        i = i + 1;
    }
    true
}

/// Whether a rule can be turned into a diagram.
pub fn check_rule(system: &System, rule: &RuleDef) -> (r: bool)
    ensures
        r == rule_fits(*system, *rule),
{
    check_node(system, &rule.a) && check_node(system, &rule.b) && check_nodes(system, &rule.result)
}

/// Whether a net can be turned into a diagram.
pub fn check_net(system: &System, net: &NetDef) -> (r: bool)
    ensures
        r == net_fits(*system, *net),
{
    check_nodes(system, &net.nodes)
}

/// Adds each occurrence to the diagram, in turn.
fn insert_agents(diagram: &mut Diagram, system: &System, nodes: &Vec<Node>)
    requires
        old(diagram).wf(),
        nodes_fit(system.agents.defs@, nodes@),
    ensures
        final(diagram).wf(),
        final(diagram)@ == with_agents(old(diagram)@, system.agents.defs@, nodes@),
{
    let ghost goal = with_agents(diagram@, system.agents.defs@, nodes@);
    let mut i: usize = 0;
    assert(nodes@.skip(0) =~= nodes@);
    while i < nodes.len()
        invariant
            diagram.wf(),
            i <= nodes@.len(),
            nodes_fit(system.agents.defs@, nodes@),
            goal == with_agents(diagram@, system.agents.defs@, nodes@.skip(i as int)),
        decreases nodes@.len() - i,
    {
        let node = &nodes[i];
        proof {
            assert(nodes@.skip(i as int)[0] == *node);
            assert(nodes@.skip(i as int).skip(1) =~= nodes@.skip(i + 1));
            assert(node_fits(system.agents.defs@, nodes@[i as int]));
        }
        match system.agents.defs.get(node.agent) {
            Some(def) => {
                let partition = group_sizes(&def.value.auxiliary);
                diagram.insert_agent(node.ports.as_slice(), partition.as_slice());
            },
            None => {},
        }
        i = i + 1;
    }
}

/// Adds the auxiliary ports of one of the two agents that a rule rewrites, as
/// free ports.
fn insert_side(diagram: &mut Diagram, system: &System, node: &Node)
    requires
        old(diagram).wf(),
        node_fits(system.agents.defs@, *node),
    ensures
        final(diagram).wf(),
        final(diagram)@ == old(diagram)@.free_ports(
            node.ports@.skip(1),
            sizes(system.agents.defs@[node.agent.0 as int].value.auxiliary@),
        ),
{
    match system.agents.defs.get(node.agent) {
        Some(def) => {
            let partition = group_sizes(&def.value.auxiliary);
            let ports = slice_subrange(node.ports.as_slice(), 1, node.ports.len());
            assert(ports@ =~= node.ports@.skip(1));
            diagram.insert_free_ports(ports, partition.as_slice());
        },
        None => {},
    }
}

/// The diagram of a rule.
pub fn rule_diagram(system: &System, rule: &RuleDef) -> (diagram: Diagram)
    requires
        rule_fits(*system, *rule),
    ensures
        diagram.wf(),
        diagram@ == rule_wiring(*system, *rule),
{
    let mut diagram = Diagram::default();
    assert(diagram@ == blank());
    insert_side(&mut diagram, system, &rule.a);
    insert_side(&mut diagram, system, &rule.b);
    insert_agents(&mut diagram, system, &rule.result);
    diagram
}

/// The diagram of a net.
pub fn net_diagram(system: &System, net: &NetDef) -> (diagram: Diagram)
    requires
        net_fits(*system, *net),
    ensures
        diagram.wf(),
        diagram@ == net_wiring(*system, *net),
{
    let mut diagram = Diagram::default();
    assert(diagram@ == blank());
    let vars = flatten(&net.ports);
    let partition = group_sizes(&net.ports);
    proof {
        lemma_flat_len(net.ports@);
    }
    diagram.insert_free_ports(vars.as_slice(), partition.as_slice());
    insert_agents(&mut diagram, system, &net.nodes);
    diagram
}

/// Saturates the diagram and says whether it is simple: whether no edge has
/// been narrowed to the empty relation.
pub fn is_simple(diagram: &mut Diagram) -> (simple: bool)
    requires
        old(diagram).wf(),
    ensures
        final(diagram).wf(),
        final(diagram)@.vars == old(diagram)@.vars,
        final(diagram)@.nodes == old(diagram)@.nodes,
        propagates::<NodeId, Arrow, _>(
            old(diagram)@.edges,
            final(diagram)@.edges,
            path_rule,
        ),
        complete(final(diagram)@.edges),
        simple == !contradictory(final(diagram)@.edges),
{
    diagram.complete();
    !diagram.is_contradictory()
}

/// Whether a wiring is simple in the graph `h`: `h` is a saturation of its
/// edges, and the verdict says whether `h` is free of contradiction.
pub open spec fn verdict_of(w: Wiring, h: Edges<Arrow>, simple: bool) -> bool {
    &&& propagates::<NodeId, Arrow, _>(w.edges, h, path_rule)
    &&& complete(h)
    &&& simple == !contradictory(h)
}

/// Whether a rule is simple: whether the diagram of its right-hand side
/// saturates without contradiction.
pub fn rule_is_simple(system: &System, rule: &RuleDef) -> (simple: bool)
    requires
        rule_fits(*system, *rule),
    ensures
        exists|h: Edges<Arrow>| #[trigger]
            verdict_of(rule_wiring(*system, *rule), h, simple),
{
    let mut diagram = rule_diagram(system, rule);
    let simple = is_simple(&mut diagram);
    assert(verdict_of(rule_wiring(*system, *rule), diagram@.edges, simple));
    simple
}

/// Whether a net is simple: whether its diagram saturates without
/// contradiction.
pub fn net_is_simple(system: &System, net: &NetDef) -> (simple: bool)
    requires
        net_fits(*system, *net),
    ensures
        exists|h: Edges<Arrow>| #[trigger]
            verdict_of(net_wiring(*system, *net), h, simple),
{
    let mut diagram = net_diagram(system, net);
    let simple = is_simple(&mut diagram);
    assert(verdict_of(net_wiring(*system, *net), diagram@.edges, simple));
    simple
}

} // verus!
