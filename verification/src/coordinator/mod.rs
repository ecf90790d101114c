//! The coordinator: which job runs when, and what becomes of it.

pub mod effects;
pub mod figures;
pub mod laws;
pub mod model;
pub mod promises;
pub mod restore;
pub mod state;
