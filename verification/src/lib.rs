//! Core of a small entity-component engine: a scene hierarchy kept
//! consistent by an incremental maintenance system, transform propagation
//! through that hierarchy, change-event driven dirty tracking, and a
//! dependency-ordered schedule that runs the systems once per tick.

pub mod children;
pub mod engine;
pub mod entity;
pub mod hierarchy;
pub mod laws;
pub mod matrix;
pub mod render;
pub mod schedule;
pub mod storage;
pub mod transform;
pub mod window;
pub mod world;
