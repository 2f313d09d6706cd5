//! Travel-to-work areas: partitioning a commuting graph into self-contained
//! labour-market areas by iterative dissolution of the worst-scoring area.

pub mod graph;
pub mod model;
pub mod score;
pub mod rules;
pub mod areas;
pub mod connect;
