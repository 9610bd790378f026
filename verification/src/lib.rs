//! Assignment and scheduling logic for base facilities: operator boxes and
//! rosters, candidate pools, joint trade-room selection, rotation helpers and
//! the response-dependency classification of skill effects.

pub mod joint_trade;
pub mod text;
pub mod roster;
pub mod instances;
pub mod tier;
pub mod operbox;
pub mod xlsx;
pub mod profile;
pub mod skill_table;
pub mod types;
pub mod response_dependency;
pub mod resource_closure;
pub mod dependency_rows;
pub mod layout;
pub mod pool;
pub mod control;
pub mod schedule;
pub mod manufacture;
pub mod power;
pub mod office;
pub mod support;
pub mod mood;
pub mod scoring;
pub mod search;
pub mod ranking;
pub mod combos;
pub mod power_assign;
