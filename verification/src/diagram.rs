//! The constraint network of one rule or net, and how it is built, saturated
//! and judged.

use crate::arrow::Arrow;
use crate::arrow::FULL;
use crate::arrow::lemma_join_converse;
use crate::arrow::lemma_join_is_mask;
use crate::arrow::lemma_merge_shrinks;
use crate::arrow::turned;
use crate::ast::Var;
use crate::graph::closure::tame;
use crate::graph::Edge;
use crate::graph::Edges;
use crate::graph::Graph;
use crate::graph::half_inserted;
use crate::graph::inserted;
use crate::graph::propagation::closed;
use crate::graph::propagation::implements;
use crate::graph::propagation::involutive;
use crate::graph::propagation::lemma_inserted;
use crate::graph::propagation::narrows;
use crate::graph::propagation::lemma_propagates_saturated;
use crate::graph::propagation::loop_free;
use crate::graph::propagation::propagates;
use crate::graph::propagation::Rule;
use crate::graph::propagation::saturated;
use crate::graph::propagation::sound_at;
use crate::graph::propagation::symmetric;
use crate::graph::propagation::total;
use crate::graph::propagation::turns_at;
use crate::graph::propagation::well_behaved;
use crate::graph::propagation::within;
use crate::idx::Idx;
use crate::idx::IndexVec;
use crate::int_map;
use nohash_hasher::IntMap;
use vstd::prelude::*;
use vstd::std_specs::convert::FromSpecImpl;

verus! {

/// The index of a node of a diagram.
#[derive(Clone, Copy, PartialEq, Eq, PartialOrd, Ord, Hash, Debug, Structural)]
pub struct NodeId(pub usize);

impl From<usize> for NodeId {
    fn from(i: usize) -> (r: Self) {
        NodeId(i)
    }
}

impl FromSpecImpl<usize> for NodeId {
    open spec fn obeys_from_spec() -> bool {
        true
    }

    open spec fn from_spec(i: usize) -> Self {
        NodeId(i)
    }
}

impl From<NodeId> for usize {
    fn from(i: NodeId) -> (r: usize) {
        i.0
    }
}

impl FromSpecImpl<NodeId> for usize {
    open spec fn obeys_from_spec() -> bool {
        true
    }

    open spec fn from_spec(i: NodeId) -> usize {
        i.0
    }
}

impl Idx for NodeId {
    proof fn lemma_conversions() {
    }
}

/// The role of a node: the principal port of an agent or a free port, an
/// auxiliary port of an agent, or the node that holds a group of ports
/// together.
#[derive(Debug, Clone, Copy, PartialEq, Eq, PartialOrd, Ord, Structural)]
pub enum NodeType {
    Principal,
    Auxiliary,
    Partition,
}

/// Much-after: from a principal port to each of its partitions, and from a
/// partition to each of its free ports.
pub const MUCH_AFTER: u8 = 0b00001;

/// Same: between two principal ports on one wire.
pub const SAME: u8 = 0b00100;

/// Before or much-after: from a partition to each of its auxiliary ports, and
/// from an auxiliary port along a wire.
pub const BEFORE_OR_MUCH_AFTER: u8 = 0b01001;

/// Much-before or much-after: from a principal port along a wire to an
/// auxiliary port.
pub const MUCH_BEFORE_OR_MUCH_AFTER: u8 = 0b10001;

/// The relation that a wire lays from a port of role `a` to a port of role
/// `b`. A partition is no port and takes no wire.
pub open spec fn wire(a: NodeType, b: NodeType) -> Option<Arrow> {
    match (a, b) {
        (NodeType::Principal, NodeType::Principal) => Some(Arrow(SAME)),
        (NodeType::Principal, NodeType::Auxiliary) => Some(Arrow(MUCH_BEFORE_OR_MUCH_AFTER)),
        (NodeType::Auxiliary, NodeType::Principal) => Some(Arrow(BEFORE_OR_MUCH_AFTER)),
        (NodeType::Auxiliary, NodeType::Auxiliary) => Some(Arrow(BEFORE_OR_MUCH_AFTER)),
        _ => None,
    }
}

/// What a diagram holds: for each variable that has been seen once the node
/// where it was seen, the role of each node, and the edges.
pub struct Wiring {
    pub vars: Map<usize, NodeId>,
    pub nodes: Seq<NodeType>,
    pub edges: Edges<Arrow>,
}

impl Wiring {
    /// Every edge joins two different nodes of the diagram and has its
    /// converse on the reversed pair, and every variable that waits for its
    /// second port waits at a port of the diagram.
    pub open spec fn wf(self) -> bool {
        &&& within(self.edges, self.nodes.len())
        &&& symmetric(self.edges)
        &&& loop_free(self.edges)
        &&& forall|v: usize| #[trigger]
            self.vars.contains_key(v) ==> {
                &&& self.vars[v].0 < self.nodes.len()
                &&& self.nodes[self.vars[v].0 as int] != NodeType::Partition
            }
    }

    /// One more node, of role `t`.
    pub open spec fn pushed(self, t: NodeType) -> Wiring {
        Wiring { nodes: self.nodes.push(t), ..self }
    }

    /// The relation `e` laid from node `a` to node `b`.
    pub open spec fn joined(self, a: usize, b: usize, e: Arrow) -> Wiring {
        Wiring { edges: inserted(self.edges, a, b, e), ..self }
    }

    /// A wire from port `a` to port `b`.
    pub open spec fn linked(self, a: usize, b: usize) -> Wiring {
        match wire(self.nodes[a as int], self.nodes[b as int]) {
            Some(e) => self.joined(a, b, e),
            None => self,
        }
    }

    /// The variable `var` seen at the port `node`: where it waits at another
    /// port, a wire is laid from `node` to that port and the variable is
    /// forgotten; else it waits at `node`.
    pub open spec fn var_linked(self, var: usize, node: usize) -> Wiring {
        if self.vars.contains_key(var) {
            Wiring { vars: self.vars.remove(var), ..self }.linked(node, self.vars[var].0)
        } else {
            Wiring { vars: self.vars.insert(var, NodeId(node)), ..self }
        }
    }

    /// One port of role `kind` for each variable of `vars`, in turn: a new
    /// node, the relation `rel` laid from the partition `hub` to it, and the
    /// variable seen at it.
    pub open spec fn ports(self, hub: usize, kind: NodeType, rel: Arrow, vars: Seq<Var>) -> Wiring
        decreases vars.len(),
    {
        if vars.len() == 0 {
            self
        } else {
            let p = self.nodes.len() as usize;
            self.pushed(kind).joined(hub, p, rel).var_linked(vars[0].0, p).ports(
                hub,
                kind,
                rel,
                vars.skip(1),
            )
        }
    }

    /// One occurrence of an agent: a principal node, which sees the first
    /// variable, and below it the groups of its auxiliary ports, which see
    /// the others.
    pub open spec fn agent(self, vars: Seq<Var>, partition: Seq<usize>) -> Wiring {
        let p = self.nodes.len() as usize;
        self.pushed(NodeType::Principal).var_linked(vars[0].0, p).groups(
            Some(p),
            NodeType::Auxiliary,
            Arrow(BEFORE_OR_MUCH_AFTER),
            vars.skip(1),
            partition,
        )
    }

    /// The free ports of a rule or net: groups of principal nodes without a
    /// root, each hung below its partition by much-after.
    pub open spec fn free_ports(self, vars: Seq<Var>, partition: Seq<usize>) -> Wiring {
        self.groups(None, NodeType::Principal, Arrow(MUCH_AFTER), vars, partition)
    }

    /// One partition for each size of `partition`, in turn: a new node, hung
    /// below `root` by much-after where there is a root, and below it as many
    /// ports as the size says, with the next variables of `vars`.
    pub open spec fn groups(
        self,
        root: Option<usize>,
        kind: NodeType,
        rel: Arrow,
        vars: Seq<Var>,
        partition: Seq<usize>,
    ) -> Wiring
        decreases partition.len(),
    {
        if partition.len() == 0 {
            self
        } else {
            let x = self.nodes.len() as usize;
            let n = partition[0] as int;
            let hung = match root {
                Some(p) => self.pushed(NodeType::Partition).joined(p, x, Arrow(MUCH_AFTER)),
                None => self.pushed(NodeType::Partition),
            };
            hung.ports(x, kind, rel, vars.take(n)).groups(
                root,
                kind,
                rel,
                vars.skip(n),
                partition.skip(1),
            )
        }
    }
}

/// The sizes of `partition` added up.
pub open spec fn total_size(partition: Seq<usize>) -> nat
    decreases partition.len(),
{
    if partition.len() == 0 {
        0
    } else {
        partition[0] as nat + total_size(partition.skip(1))
    }
}

/// The constraint network of one rule or net.
#[derive(Debug)]
pub struct Diagram {
    pub vars: IntMap<usize, NodeId>,
    pub nodes: IndexVec<NodeId, NodeType>,
    pub graph: Graph<NodeId, Arrow>,
}

impl View for Diagram {
    type V = Wiring;

    open spec fn view(&self) -> Wiring {
        Wiring { vars: self.vars@, nodes: self.nodes@, edges: self.graph@ }
    }
}

/// A relation with no bit above the five can be turned round and back.
pub proof fn lemma_mask_involutive(e: Arrow)
    ensures
        involutive(e) <==> e.is_mask(),
{
    let x = e.0;
    assert(turned(turned(x)) == x <==> x <= 31) by (bit_vector);
}

/// What a path from `a` to `c` over two edges `x` and `y` says of the pair
/// `(a, c)`: their composition, and nothing about a node and itself.
pub open spec fn path_rule_spec(a: NodeId, x: Arrow, y: Arrow, c: NodeId) -> Option<Arrow> {
    if a != c {
        x.join_spec(y)
    } else {
        None
    }
}

/// The callback that a diagram is completed with.
pub fn path_rule(a: NodeId, x: Arrow, _b: NodeId, y: Arrow, c: NodeId) -> (r: Option<Arrow>)
    ensures
        r == path_rule_spec(a, x, y, c),
{
    if a != c {
        x.join(y)
    } else {
        None
    }
}

/// Some edge holds the empty relation.
pub open spec fn contradictory(g: Edges<Arrow>) -> bool {
    exists|a: usize, b: usize| #[trigger] g.contains_key((a, b)) && g[(a, b)].0 == 0
}

/// The edge from `a` to `c`, or no knowledge at all where there is none,
/// allows nothing that the path from `a` over `b` to `c` forbids.
pub open spec fn complete_at(g: Edges<Arrow>, a: usize, b: usize, c: usize) -> bool {
    g.contains_key((a, b)) && g.contains_key((b, c)) && a != c ==> {
        let ac = if g.contains_key((a, c)) {
            g[(a, c)]
        } else {
            Arrow(FULL)
        };
        let path = match g[(a, b)].join_spec(g[(b, c)]) {
            Some(j) => j,
            None => Arrow(FULL),
        };
        ac.merge_spec(path) == ac
    }
}

/// The graph is a fixpoint: no path of two edges narrows the edge between
/// its ends.
pub open spec fn complete(g: Edges<Arrow>) -> bool {
    forall|a: usize, b: usize, c: usize| #[trigger] complete_at(g, a, b, c)
}

/// The rule that `path_rule` follows, with the nodes by position.
pub open spec fn diagram_rule() -> Rule<Arrow> {
    |a: usize, x: Arrow, b: usize, y: Arrow, c: usize| path_rule_spec(NodeId(a), x, y, NodeId(c))
}

/// The callback of a diagram can be asked about every path, and the rule that
/// it follows is well behaved.
pub proof fn lemma_path_rule()
    ensures
        total::<NodeId, Arrow, _>(path_rule),
        implements::<NodeId, Arrow, _>(path_rule, diagram_rule()),
        well_behaved(diagram_rule()),
{
    let rule = diagram_rule();
    assert forall|a: usize, x: Arrow, b: usize, y: Arrow, c: usize| #[trigger]
        sound_at(rule, a, x, b, y, c) by {
        lemma_join_is_mask(x, y);
        if rule(a, x, b, y, c) is Some {
            lemma_mask_involutive(rule(a, x, b, y, c).unwrap());
        }
    }
    assert forall|a: usize, x: Arrow, b: usize, y: Arrow, c: usize| #[trigger]
        turns_at(rule, a, x, b, y, c) by {
        if involutive(x) && involutive(y) {
            lemma_mask_involutive(x);
            lemma_mask_involutive(y);
            lemma_join_converse(x, y);
        }
    }
}

/// A symmetric graph that is saturated under the rule of a diagram is
/// complete.
pub proof fn lemma_saturated_complete(g: Edges<Arrow>)
    requires
        symmetric(g),
        saturated(g, diagram_rule()),
    ensures
        complete(g),
{
    assert forall|a: usize, b: usize, c: usize| #[trigger] complete_at(g, a, b, c) by {
        if g.contains_key((a, b)) && g.contains_key((b, c)) && a != c {
            assert(closed(g, diagram_rule(), a, b, c));
            let x = g[(a, b)];
            let y = g[(b, c)];
            if x.join_spec(y) is None {
                if g.contains_key((a, c)) {
                    let e = g[(a, c)];
                    assert(g.contains_key((c, a)));
                    assert(involutive(e));
                    lemma_mask_involutive(e);
                    let bits = e.0;
                    assert(bits <= 31 ==> bits & 31 == bits) by (bit_vector);
                } else {
                    assert(31u8 & 31u8 == 31u8) by (bit_vector);
                }
            }
        }
    }
}

/// A complete graph is saturated under the rule of a diagram.
pub proof fn lemma_complete_saturated(g: Edges<Arrow>)
    requires
        complete(g),
    ensures
        saturated(g, diagram_rule()),
{
    assert forall|a: usize, b: usize, c: usize| #[trigger] closed(g, diagram_rule(), a, b, c) by {
        if g.contains_key((a, b)) && g.contains_key((b, c)) {
            let x = g[(a, b)];
            let y = g[(b, c)];
            if diagram_rule()(a, x, b, y, c) is Some {
                let z = diagram_rule()(a, x, b, y, c).unwrap();
                assert(complete_at(g, a, b, c));
                assert(x.join_spec(y) == Some(z));
                let bits = z.0;
                assert(31u8 & bits == 31u8 && bits <= 31 ==> bits == 31) by (bit_vector);
                lemma_join_is_mask(x, y);
            }
        }
    }
}

/// Completing a diagram that is complete already changes nothing: whatever
/// comes from a complete graph by propagation is that graph.
pub proof fn lemma_complete_is_fixpoint(g: Edges<Arrow>, h: Edges<Arrow>)
    requires
        complete(g),
        propagates::<NodeId, Arrow, _>(g, h, path_rule),
    ensures
        h == g,
{
    lemma_path_rule();
    lemma_complete_saturated(g);
    lemma_propagates_saturated::<NodeId, Arrow, _>(g, h, path_rule, diagram_rule());
}

/// Laying a relation on a pair that holds one already leaves at most as many
/// atomic relations there as there were.
pub proof fn lemma_insert_shrinks(g: Edges<Arrow>, a: usize, b: usize, e: Arrow, p: (usize, usize))
    requires
        g.contains_key(p),
    ensures
        inserted(g, a, b, e).contains_key(p),
        inserted(g, a, b, e)[p].cardinality() <= g[p].cardinality(),
{
    let h = half_inserted(g, a, b, e);
    let back = Arrow(turned(e.0));
    lemma_merge_shrinks(g[p], e);
    lemma_merge_shrinks(h[p], back);
}

impl Default for Diagram {
    fn default() -> (r: Self)
        ensures
            r.wf(),
            r@.vars == Map::<usize, NodeId>::empty(),
            r@.nodes == Seq::<NodeType>::empty(),
            r@.edges == Map::<(usize, usize), Arrow>::empty(),
    {
        Diagram { vars: int_map::empty(), nodes: IndexVec::new(), graph: Graph::new() }
    }
}

impl Diagram {
    /// The graph is sound, has no node that the diagram lacks, and the
    /// wiring is well formed.
    pub open spec fn wf(&self) -> bool {
        &&& self.graph.wf()
        &&& self.graph.node_count() <= self.nodes@.len()
        &&& self@.wf()
    }

    /// Lays a wire from the port `a` to the port `b`, with the relation that
    /// their roles call for.
    pub fn link(&mut self, a: NodeId, b: NodeId)
        requires
            old(self).wf(),
            a.0 < old(self)@.nodes.len(),
            b.0 < old(self)@.nodes.len(),
            a != b,
            wire(old(self)@.nodes[a.0 as int], old(self)@.nodes[b.0 as int]) is Some,
        ensures
            final(self).wf(),
            final(self)@ == old(self)@.linked(a.0, b.0),
    {
        proof {
            self.nodes.lemma_len();
        }
        let from = match self.nodes.get(a) {
            Some(t) => *t,
            None => NodeType::Partition,
        };
        let to = match self.nodes.get(b) {
            Some(t) => *t,
            None => NodeType::Partition,
        };
        let relation = match (from, to) {
            (NodeType::Principal, NodeType::Principal) => Some(Arrow(SAME)),
            (NodeType::Principal, NodeType::Auxiliary) => Some(Arrow(MUCH_BEFORE_OR_MUCH_AFTER)),
            (NodeType::Auxiliary, NodeType::Principal) => Some(Arrow(BEFORE_OR_MUCH_AFTER)),
            (NodeType::Auxiliary, NodeType::Auxiliary) => Some(Arrow(BEFORE_OR_MUCH_AFTER)),
            _ => None,
        };
        assert(relation == wire(from, to));
        match relation {
            Some(e) => {
                proof {
                    lemma_mask_involutive(e);
                    lemma_inserted(self.graph@, a.0, b.0, e);
                }
                self.graph.insert(a, b, e);
            },
            None => {},
        }
    }

    /// Sees the variable `var` at the port `node`.
    fn link_var(&mut self, var: Var, node: NodeId)
        requires
            old(self).wf(),
            node.0 < old(self)@.nodes.len(),
            old(self)@.nodes[node.0 as int] != NodeType::Partition,
            forall|v: usize| #[trigger] old(self)@.vars.contains_key(v) ==> old(self)@.vars[v] != node,
        ensures
            final(self).wf(),
            final(self)@ == old(self)@.var_linked(var.0, node.0),
    {
        match int_map::remove(&mut self.vars, var.0) {
            Some(other) => {
                self.link(node, other);
            },
            None => {
                int_map::insert(&mut self.vars, var.0, node);
                assert(self@.vars =~= old(self)@.vars.insert(var.0, node));
            },
        }
    }

    /// Hangs one partition for each size of `partition` below `root`, where
    /// there is one, and below each partition its ports of role `kind`, with
    /// the variables of `vars` from position `first` on.
    fn hang_groups(
        &mut self,
        root: Option<NodeId>,
        kind: NodeType,
        rel: Arrow,
        vars: &[Var],
        first: usize,
        partition: &[usize],
    )
        requires
            old(self).wf(),
            first <= vars@.len(),
            vars@.len() - first == total_size(partition@),
            kind != NodeType::Partition,
            rel.is_mask(),
            root matches Some(p) ==> p.0 < old(self)@.nodes.len(),
        ensures
            final(self).wf(),
            final(self)@ == old(self)@.groups(
                position(root),
                kind,
                rel,
                vars@.skip(first as int),
                partition@,
            ),
    {
        let ghost goal = self@.groups(position(root), kind, rel, vars@.skip(first as int), partition@);
        let mut next: usize = first;
        let mut g: usize = 0;
        assert(partition@.skip(0) =~= partition@);
        while g < partition.len()
            invariant
                self.wf(),
                first <= next <= vars@.len(),
                g <= partition@.len(),
                vars@.len() - next == total_size(partition@.skip(g as int)),
                kind != NodeType::Partition,
                rel.is_mask(),
                root matches Some(p) ==> p.0 < self@.nodes.len(),
                goal == self@.groups(
                    position(root),
                    kind,
                    rel,
                    vars@.skip(next as int),
                    partition@.skip(g as int),
                ),
            decreases partition@.len() - g,
        {
            let n: usize = partition[g];
            let ghost rest = vars@.skip(next as int);
            let ghost sizes = partition@.skip(g as int);
            proof {
                assert(sizes[0] == n);
                assert(sizes.skip(1) =~= partition@.skip(g + 1));
                assert(rest.skip(n as int) =~= vars@.skip(next + n));
                lemma_mask_involutive(Arrow(MUCH_AFTER));
                lemma_mask_involutive(rel);
            }
            let x = self.nodes.push(NodeType::Partition);
            proof {
                self.nodes.lemma_len();
            }
            match root {
                Some(p) => {
                    proof {
                        lemma_inserted(self.graph@, p.0, x.0, Arrow(MUCH_AFTER));
                    }
                    self.graph.insert(p, x, Arrow(MUCH_AFTER));
                },
                None => {},
            }
            let ghost group = rest.take(n as int);
            let ghost hung = self@;
            let start = next;
            let mut j: usize = 0;
            assert(group.skip(0) =~= group);
            while j < n
                invariant
                    self.wf(),
                    j <= n,
                    next == start + j,
                    start + n <= vars@.len(),
                    group == vars@.skip(start as int).take(n as int),
                    kind != NodeType::Partition,
                    rel.is_mask(),
                    x.0 < self@.nodes.len(),
                    self@.nodes[x.0 as int] == NodeType::Partition,
                    root matches Some(p) ==> p.0 < self@.nodes.len(),
                    hung.ports(x.0, kind, rel, group) == self@.ports(
                        x.0,
                        kind,
                        rel,
                        group.skip(j as int),
                    ),
                decreases n - j,
            {
                let v = vars[next];
                proof {
                    assert(group.skip(j as int)[0] == v);
                    assert(group.skip(j as int).skip(1) =~= group.skip(j + 1));
                    lemma_mask_involutive(rel);
                }
                let p = self.nodes.push(kind);
                proof {
                    self.nodes.lemma_len();
                    lemma_inserted(self.graph@, x.0, p.0, rel);
                }
                self.graph.insert(x, p, rel);
                self.link_var(v, p);
                next = next + 1;
                j = j + 1;
            }
            g = g + 1;
        }
    }

    /// Adds the free ports of a rule or net: one partition for each size of
    /// `partition`, and below each, by much-after, as many principal nodes as
    /// the size says, one for each variable of `vars` in turn.
    pub fn insert_free_ports(&mut self, vars: &[Var], partition: &[usize])
        requires
            old(self).wf(),
            vars@.len() == total_size(partition@),
        ensures
            final(self).wf(),
            final(self)@ == old(self)@.free_ports(vars@, partition@),
    {
        assert(vars@.skip(0) =~= vars@);
        self.hang_groups(None, NodeType::Principal, Arrow(MUCH_AFTER), vars, 0, partition);
    }

    /// Adds one occurrence of an agent: a principal node, which sees the
    /// first variable, then one partition for each size of `partition`, hung
    /// below the principal node by much-after, and below each partition, by
    /// before-or-much-after, as many auxiliary nodes as the size says, one
    /// for each further variable in turn.
    pub fn insert_agent(&mut self, vars: &[Var], partition: &[usize])
        requires
            old(self).wf(),
            vars@.len() == 1 + total_size(partition@),
        ensures
            final(self).wf(),
            final(self)@ == old(self)@.agent(vars@, partition@),
    {
        let principal = self.nodes.push(NodeType::Principal);
        self.link_var(vars[0], principal);
        self.hang_groups(
            Some(principal),
            NodeType::Auxiliary,
            Arrow(BEFORE_OR_MUCH_AFTER),
            vars,
            1,
            partition,
        );
    }

    /// Saturates the graph of the diagram under composition.
    pub fn complete(&mut self)
        requires
            old(self).graph.wf(),
        ensures
            final(self).graph.wf(),
            final(self).graph.node_count() == old(self).graph.node_count(),
            final(self)@.vars == old(self)@.vars,
            final(self)@.nodes == old(self)@.nodes,
            propagates::<NodeId, Arrow, _>(old(self)@.edges, final(self)@.edges, path_rule),
            narrows(old(self)@.edges, final(self)@.edges),
            old(self).wf() ==> final(self).wf() && complete(final(self)@.edges),
            complete(old(self)@.edges) ==> final(self)@.edges == old(self)@.edges,
    {
        proof {
            lemma_path_rule();
        }
        let ghost before = self.graph@;
        self.graph.closure(path_rule);
        proof {
            if old(self).wf() {
                assert(tame(before, diagram_rule()));
                lemma_saturated_complete(self.graph@);
            }
            if complete(before) {
                lemma_complete_is_fixpoint(before, self.graph@);
            }
        }
    }

    /// Whether some edge holds the empty relation: the wiring cannot be
    /// realised.
    pub fn is_contradictory(&self) -> (r: bool)
        ensures
            r == contradictory(self@.edges),
    {
        let n: usize = self.graph.nodes.len();
        let mut a: usize = 0;
        while a < n
            invariant
                n == self.graph.node_count(),
                a <= n,
                forall|x: usize, y: usize|
                    x < a && #[trigger] self@.edges.contains_key((x, y)) ==> self@.edges[(x, y)].0
                        != 0,
            decreases n - a,
        {
            match self.graph.nodes.get(NodeId(a)) {
                Some(node) => {
                    let keys = int_map::keys(&node.edges);
                    let mut k: usize = 0;
                    while k < keys.len()
                        invariant
                            a < n,
                            n == self.graph.node_count(),
                            *node == self.graph.nodes@[a as int],
                            k <= keys.len(),
                            keys@.to_set() == node.edges@.dom(),
                            forall|j: int|
                                0 <= j < k ==> self@.edges[(a, #[trigger] keys@[j])].0 != 0,
                        decreases keys.len() - k,
                    {
                        let b: usize = keys[k];
                        assert(keys@.to_set().contains(b));
                        match int_map::get(&node.edges, b) {
                            Some(e) => {
                                if e.0 == 0 {
                                    assert(self@.edges.contains_key((a, b)));
                                    return true;
                                }
                            },
                            None => {},
                        }
                        k = k + 1;
                    }
                    assert forall|y: usize| #[trigger]
                        self@.edges.contains_key((a, y)) implies self@.edges[(a, y)].0 != 0 by {
                        assert(keys@.to_set().contains(y));
                        let j = choose|j: int| 0 <= j < keys@.len() && keys@[j] == y;
                        assert(self@.edges[(a, keys@[j])].0 != 0);
                    }
                },
                None => {},
            }
            a = a + 1;
        }
        false
    }

    /// Whether the path from `a` over `b` leaves every edge from `a` as it
    /// is, whatever third node it ends at.
    fn is_complete_over(&self, a: usize, b: usize, ab: Arrow) -> (r: bool)
        requires
            self.graph.wf(),
            self@.edges.contains_key((a, b)),
            self@.edges[(a, b)] == ab,
        ensures
            r == forall|c: usize| #[trigger] complete_at(self@.edges, a, b, c),
    {
        let ghost g = self@.edges;
        match self.graph.nodes.get(NodeId(b)) {
            Some(node) => {
                let keys = int_map::keys(&node.edges);
                let mut k: usize = 0;
                while k < keys.len()
                    invariant
                        g == self@.edges,
                        g.contains_key((a, b)),
                        g[(a, b)] == ab,
                        b < self.graph.node_count(),
                        *node == self.graph.nodes@[b as int],
                        k <= keys.len(),
                        keys@.to_set() == node.edges@.dom(),
                        forall|j: int| 0 <= j < k ==> complete_at(g, a, b, #[trigger] keys@[j]),
                    decreases keys.len() - k,
                {
                    let c: usize = keys[k];
                    assert(keys@.to_set().contains(c));
                    if a != c {
                        match int_map::get(&node.edges, c) {
                            Some(bc) => {
                                let ac = match self.graph.get_edge(NodeId(a), NodeId(c)) {
                                    Some(e) => e,
                                    None => Arrow(FULL),
                                };
                                let path = match ab.join(*bc) {
                                    Some(j) => j,
                                    None => Arrow(FULL),
                                };
                                if ac.merge(path) != ac {
                                    assert(!complete_at(g, a, b, c));
                                    return false;
                                }
                            },
                            None => {},
                        }
                    }
                    k = k + 1;
                }
                assert forall|c: usize| #[trigger] complete_at(g, a, b, c) by {
                    if g.contains_key((b, c)) {
                        assert(keys@.to_set().contains(c));
                        let j = choose|j: int| 0 <= j < keys@.len() && keys@[j] == c;
                        assert(complete_at(g, a, b, keys@[j]));
                    }
                }
                true
            },
            None => true,
        }
    }

    /// Whether the graph is a fixpoint: no path of two edges narrows the edge
    /// between its ends, where a pair without an edge counts as one with no
    /// knowledge at all.
    pub fn is_complete(&self) -> (r: bool)
        requires
            self.graph.wf(),
        ensures
            r == complete(self@.edges),
    {
        let ghost g = self@.edges;
        let n: usize = self.graph.nodes.len();
        let mut a: usize = 0;
        while a < n
            invariant
                g == self@.edges,
                self.graph.wf(),
                n == self.graph.node_count(),
                a <= n,
                forall|x: usize, y: usize, z: usize| x < a ==> #[trigger] complete_at(g, x, y, z),
            decreases n - a,
        {
            match self.graph.nodes.get(NodeId(a)) {
                Some(node) => {
                    let keys = int_map::keys(&node.edges);
                    let mut k: usize = 0;
                    while k < keys.len()
                        invariant
                            g == self@.edges,
                            self.graph.wf(),
                            a < n,
                            n == self.graph.node_count(),
                            *node == self.graph.nodes@[a as int],
                            k <= keys.len(),
                            keys@.to_set() == node.edges@.dom(),
                            forall|j: int, z: usize|
                                0 <= j < k ==> #[trigger] complete_at(g, a, keys@[j], z),
                        decreases keys.len() - k,
                    {
                        let b: usize = keys[k];
                        assert(keys@.to_set().contains(b));
                        match int_map::get(&node.edges, b) {
                            Some(ab) => {
                                if !self.is_complete_over(a, b, *ab) {
                                    return false;
                                }
                            },
                            None => {},
                        }
                        k = k + 1;
                    }
                    assert forall|y: usize, z: usize| #[trigger] complete_at(g, a, y, z) by {
                        if g.contains_key((a, y)) {
                            assert(keys@.to_set().contains(y));
                            let j = choose|j: int| 0 <= j < keys@.len() && keys@[j] == y;
                            assert(complete_at(g, a, keys@[j], z));
                        }
                    }
                },
                None => {},
            }
            a = a + 1;
        }
        true
    }
}

/// The position of the root, where there is one.
pub open spec fn position(root: Option<NodeId>) -> Option<usize> {
    match root {
        Some(p) => Some(p.0),
        None => None,
    }
}

} // verus!
