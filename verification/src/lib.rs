//! Exact brute-force analysis core for symmetric traveling-salesman instances.
//!
//! The crate enumerates every Hamiltonian cycle of a small city graph in
//! lexicographic order, splits the factorial-sized rank space into per-worker
//! ranges, memoizes the permutation standing at each range boundary, and keeps
//! solved tours in a durable fingerprint-keyed store.

pub mod cache;
pub mod partition;
pub mod path_ops;
pub mod perm;
pub mod prefix_cache;
pub mod scan;
pub mod solver;
pub mod tour;
