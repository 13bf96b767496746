//! A deterministic n-body gravity kernel on fixed-point numbers.
//!
//! Bodies live in an [`object::ObjectPool`], which hands out identifiers that
//! are never used twice. A [`physics::PhysicsHandler`] advances a pool in
//! uniform steps and merges overlapping bodies, and forecasts tell where a
//! body will travel. All numbers are [`fixed::Fixed`] scalars: every result
//! is the same on every machine, and every contract states it to the last
//! digit.
pub mod color;
pub mod fixed;
pub mod object;
pub mod physics;
pub mod theorems;
pub mod vector;
