//! Permutation algebra over rows of bells, and the derivation engine that expands a
//! composition skeleton into realised rows, proves them for truth, links fragments and
//! highlights music.

pub mod bell;
pub mod stage;
pub mod row;
pub mod perm;
pub mod derived_state;
pub mod music;
pub mod comp_spec;
pub mod history;
pub mod state;
pub mod truth;
mod text;
