//! A two-dimensional simulation of circular particles in a rectangular box.
//!
//! Particles move under a constant gravity, bounce off the walls of the box
//! and collide with each other elastically. Collisions between particles are
//! found by a sweep along the x-axis, which keeps the number of exact tests
//! low, and each one is resolved as soon as it is found.
//!
//! All quantities live on an integer lattice: positions, radii and velocities
//! are `i64` counts of whatever unit the host picks, and time advances in
//! whole ticks. Arithmetic that would leave the `i64` range saturates at its
//! ends, and division rounds toward zero.
//!
//! Windows, drawing and the clock are the host's business: it reads the
//! particles and the area between two calls of `Simulation::update`.
pub mod engine;
