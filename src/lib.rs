//! Gating analysis for a resolved package graph: which features and
//! dependency edges are needed under which root-package selections.
pub mod order;
pub mod names;
pub mod expr;
pub mod optionality;
pub mod graph;
pub mod tracker;
pub mod simplify;
pub mod laws;
