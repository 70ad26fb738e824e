//! A wave-function-collapse solver on a sparse integer lattice.
//!
//! Every point of a four-dimensional lattice is to take one tile of a fixed
//! universe, so that neighbouring points obey the adjacency rules. The solver
//! collapses one point at a time: it picks the point of least entropy, draws
//! a tile for it by weight from a seeded generator, and propagates the choice
//! to the neighbours until nothing changes or a point has no tile left.
//!
//! - [`rng`]: the generator.
//! - [`weights`]: selection weights and entropy terms of the tiles.
//! - [`constraints`]: the adjacency rules.
//! - [`domain`], [`position`], [`order`]: domains, lattice points and the
//!   order that breaks ties between points.
//! - [`board`], [`listing`], [`store`]: the lattice state, as a mathematical
//!   object and as it is kept.
//! - [`fixpoint`], [`propagate`]: what propagation computes, and the
//!   propagator.
//! - [`scheduler`], [`solver`], [`instance`]: the choice of the next point,
//!   the solver, and a handle for an owner that initialises it once.

pub mod board;
pub mod constraints;
pub mod domain;
pub mod fixpoint;
pub mod instance;
pub mod listing;
pub mod order;
pub mod position;
pub mod propagate;
pub mod rng;
pub mod scheduler;
pub mod solver;
pub mod store;
pub mod weights;
