//! Extraction of low-cost, cycle-free circuits from saturated e-graphs.
//!
//! An e-graph groups interchangeable representations (nodes) of one value
//! into classes. Extraction picks one node per class so that, starting at
//! the root classes, the picked nodes form an acyclic circuit of low cost.

pub mod bottom_up;
pub mod choices;
pub mod class_reach;
pub mod col_sets;
pub mod cost;
pub mod cost_order;
pub mod counting;
pub mod cycle_breaking;
pub mod cycles;
pub mod dag;
pub mod derivation;
pub mod equivalence;
pub mod extract;
pub mod extracted;
pub mod extraction_result;
pub mod faster_bottom_up;
pub mod fixed_point;
pub mod fx_tables;
pub mod giputils;
pub mod graph;
pub mod ilp_cbc;
pub mod incremental;
pub mod linear_model;
pub mod node_cost;
pub mod objective;
pub mod random;
pub mod sampling;
pub mod search;
pub mod solutions;
pub mod status_table;
pub mod tree;
pub mod unique_queue;
pub mod validity;
pub mod worklist;
