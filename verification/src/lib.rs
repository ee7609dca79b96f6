//! Drop specialisation of reference counted programs.
pub mod arena;
pub mod drop_specialization;
pub mod environment;
pub mod ir;
pub mod laws;
pub mod layout;
pub mod rewriting;
pub mod symbol;
