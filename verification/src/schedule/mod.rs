//! Rotation scheduling: the three-team (alpha, beta, gamma) rotation of the
//! production facilities, shift binds, and per-shift efficiency records.

pub mod abyssal;
pub mod assembly;
pub mod base_rotation;
pub mod control_team;
pub mod halves;
pub mod offices;
pub mod rooms;
pub mod shift_bind;
pub mod team_rotation;
pub mod trade_rotation;
pub mod warmup;
