//! Graph data structures and algorithms, with dynamic trees, a union-find structure and
//! generic optional values.
pub mod control;
pub mod optional;
pub mod unionfind;

pub mod graph;
pub mod builder;
pub mod complete;
pub mod adjset;
pub mod graphadj;
pub mod subgraph;

pub mod dfs;
pub mod trace;
pub mod bfs;
pub mod recursive_dfs;
pub mod visitors;
pub mod paths;
pub mod components;
pub mod kruskal;
pub mod random;

pub mod seq;
pub mod nested;
pub mod tour;
pub mod eulertour;
pub mod linkcut;
