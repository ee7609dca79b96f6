//! What holds of drop specialisation as a whole.
pub mod balance;
pub mod decrements;
pub mod definedness;
pub mod digits;
pub mod fields;
pub mod increments;
pub mod names;
pub mod pairs;
pub mod places;
pub mod procedures;
pub mod scope;
pub mod shape;
pub mod steps;
pub mod stretches;
pub mod sums;
