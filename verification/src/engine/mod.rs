//! The salvo engagement engine.

pub mod impact;
pub mod interception;
pub mod monte_carlo;
pub mod ordering;
pub mod run;
pub mod stats;
pub mod stepwise;
pub mod threats;
