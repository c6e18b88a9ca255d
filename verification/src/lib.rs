//! Duty rotas: which duty each rotation schedule has on a given day, who is
//! away on that day, and the head counts that follow.

pub mod time;
pub mod schedule;
pub mod roster;
pub mod absence;
pub mod status;
pub mod report;
