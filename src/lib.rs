//! A conflict-driven clause-learning SAT solver whose core is verified.
//!
//! - `lit`: variables and literals packed into one integer.
//! - `trail`: the chronological assignment with decision levels and reasons.
//! - `clauses`: binary clauses and an arena of long clauses with metadata.
//! - `search`: the search state and the invariants that tie trail and clauses together.
//! - `propagate`: unit propagation to a fixpoint.
//! - `analyze`: first-UIP conflict analysis.
//! - `reduce`: tiered deletion of learned clauses.
//! - `solver`: formula loading and the search loop.
pub mod lit;
pub mod trail;
pub mod clauses;
pub mod search;
pub mod propagate;
pub mod analyze;
pub mod reduce;
pub mod solver;
