//! What a description holds: agents, rules and nets.

use crate::idx::Idx;
use crate::scope::Scope;
use vstd::prelude::*;
use vstd::std_specs::convert::FromSpecImpl;

verus! {

/// The index of an agent definition.
#[derive(Clone, Copy, PartialEq, Eq, PartialOrd, Ord, Hash, Debug, Structural)]
pub struct Agent(pub usize);

impl From<usize> for Agent {
    fn from(i: usize) -> (r: Self) {
        Agent(i)
    }
}

impl FromSpecImpl<usize> for Agent {
    open spec fn obeys_from_spec() -> bool {
        true
    }

    open spec fn from_spec(i: usize) -> Self {
        Agent(i)
    }
}

impl From<Agent> for usize {
    fn from(i: Agent) -> (r: usize) {
        i.0
    }
}

impl FromSpecImpl<Agent> for usize {
    open spec fn obeys_from_spec() -> bool {
        true
    }

    open spec fn from_spec(i: Agent) -> usize {
        i.0
    }
}

impl Idx for Agent {
    proof fn lemma_conversions() {
    }
}

/// The index of a variable: a wire between two ports.
#[derive(Clone, Copy, PartialEq, Eq, PartialOrd, Ord, Hash, Debug, Structural)]
pub struct Var(pub usize);

impl From<usize> for Var {
    fn from(i: usize) -> (r: Self) {
        Var(i)
    }
}

impl FromSpecImpl<usize> for Var {
    open spec fn obeys_from_spec() -> bool {
        true
    }

    open spec fn from_spec(i: usize) -> Self {
        Var(i)
    }
}

impl From<Var> for usize {
    fn from(i: Var) -> (r: usize) {
        i.0
    }
}

impl FromSpecImpl<Var> for usize {
    open spec fn obeys_from_spec() -> bool {
        true
    }

    open spec fn from_spec(i: Var) -> usize {
        i.0
    }
}

impl Idx for Var {
    proof fn lemma_conversions() {
    }
}

/// An agent's auxiliary ports, group by group.
#[derive(Debug, Clone)]
pub struct AgentDef {
    pub auxiliary: Vec<Vec<()>>,
}

/// One occurrence of an agent, with the variable at each of its ports, the
/// principal port first.
#[derive(Debug, Clone)]
pub struct Node {
    pub agent: Agent,
    pub ports: Vec<Var>,
}

/// A rule: the two agents that it rewrites and the net that takes their
/// place.
#[derive(Debug, Clone)]
pub struct RuleDef {
    pub vars: Scope<Var, ()>,
    pub a: Node,
    pub b: Node,
    pub result: Vec<Node>,
}

/// A net: its free ports, group by group, and its agents.
#[derive(Debug, Clone)]
pub struct NetDef {
    pub name: String,
    pub vars: Scope<Var, ()>,
    pub ports: Vec<Vec<Var>>,
    pub nodes: Vec<Node>,
}

/// Everything that one description holds.
#[derive(Debug, Clone)]
pub struct System {
    pub agents: Scope<Agent, AgentDef>,
    pub rules: Vec<RuleDef>,
    pub nets: Vec<NetDef>,
}

} // verus!
