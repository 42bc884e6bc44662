//! What each command does: its steps, what it asks, and what it prints.

pub mod open;
pub mod report;
pub mod steps;
pub mod update;
