//! A batch CPU-scheduling simulator: tasks with a priority and a burst, run
//! under first-come first-served, shortest job first, priority, round robin,
//! or priority with round robin, on one simulated clock.

pub mod algo;
pub mod laws;
pub mod sim;
