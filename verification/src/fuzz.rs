//! Multi-site convergence harnesses: random edits on several replicas,
//! synchronisation, and checks that all replicas agree and that past
//! versions can be checked out again.
pub mod recursive_refactored;
pub mod richtext;
pub mod sync;
pub mod tree;
