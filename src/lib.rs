//! Cheapest routes through a grid maze whose doors open with single-use keys
//! picked up along the way.
//!
//! A maze is an arena of cells joined by directed transitions (`graph`), built
//! by hand or decoded from its textual description (`layout`). The search
//! (`search`) finds a shortest route to one goal, keeping a key ledger
//! (`keys`) as it backtracks, and picks the cheapest over several goals; its
//! answers are `Path`s (`path`). `laws` states what follows for them.
pub mod graph;
pub mod keys;
pub mod laws;
pub mod layout;
pub mod path;
pub mod search;
