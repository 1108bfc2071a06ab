//! The planner: from two listings to the operations between them.

pub mod create;
pub mod plan;
pub mod reads;
pub mod sim;
pub mod walk;
