//! Global sequence alignment by dynamic programming (Needleman-Wunsch).
//!
//! Two sequences of symbols are aligned end to end under a linear gap
//! penalty and a fixed match/mismatch substitution rule.  A score grid
//! holds the optimal score for every prefix pair, a traceback grid
//! records which recurrence case produced each cell, and a backward walk
//! over the traceback grid recovers an optimal path, from which the two
//! gapped output sequences are rebuilt.

pub mod engine;
pub mod laws;
pub mod model;

pub use engine::Alignment;
pub use engine::align_strings;
pub use model::State;
