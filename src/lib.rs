//! Course catalog with prerequisite and concurrency relations, and a greedy
//! term-by-term enrollment planner.

pub mod course;
pub mod term;
pub mod relation;
pub mod catalog;
pub mod laws;
pub mod planner;
