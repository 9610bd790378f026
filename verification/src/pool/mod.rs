//! Candidate pools: the operators a facility search may draw from.

pub mod base;
pub mod control;
pub mod manufacture;
pub mod power;
pub mod ranked;
pub mod standalone;
