//! Incremental tracking of the directed clique complex of a growing directed
//! graph: per-dimension slot tables, cofacet tables and boundary matrices over
//! the field with two elements, with Betti numbers on demand.

pub mod boundary;
pub mod chain;
pub mod closure;
pub mod complex;
pub mod edges;
pub mod homology;
pub mod laws;
pub mod matrix;
pub mod paths;
pub mod rank;
pub mod rank_laws;
pub mod removal;
pub mod renumber;
pub mod sim;
pub mod simplex;
pub mod slots;
pub mod span;
