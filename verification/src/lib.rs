//! Persistence and query layer of a personal course/study-schedule planner.
//!
//! Departments own courses, courses are divided into weeks, and weeks contain
//! targets (study tasks). The store is an in-memory relational model with four
//! tables; every operation on it is verified: batch course creation with
//! department upsert, collision-free serial generation over widening digit
//! ranges, full replacement of a course's weekly content, status changes with
//! their scheduling side effect, and the daily schedule query.

pub mod types;
pub mod store;
pub mod order;
pub mod serial;
pub mod departments;
pub mod courses;
pub mod content;
pub mod status;
pub mod schedule;
pub mod weeks;
pub mod targets;
