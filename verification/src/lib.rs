//! Exercises in data structures and algorithms: a B-tree that maps ordered
//! keys to values, searches in directed graphs, the evaluation of
//! arithmetic expressions, the walk along a line in space, and a sum for
//! closures to call.

pub mod btree;
pub mod closure;
pub mod expr;
pub mod graphs;
pub mod raster;
