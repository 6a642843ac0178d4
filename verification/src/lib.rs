//! Checks whether the wiring that an interaction-net rule or net implies can
//! be realised.
//!
//! A rule or net is turned into a diagram: a graph whose nodes are ports and
//! groups of ports, and whose edges say how the two nodes of a pair may lie
//! to each other. The graph is saturated under composition along paths of
//! two edges; the rule or net is simple where no edge is narrowed to the
//! empty relation on the way.

pub mod arrow;
pub mod ast;
pub mod diagram;
pub mod graph;
pub mod idx;
pub mod int_map;
pub mod scope;
pub mod verdict;
