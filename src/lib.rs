//! Vicsek flocking on the unit torus, in fixed-point arithmetic.
//!
//! Positions are `u32` fractions of the torus side (`p` stands for `p / 2^32`),
//! headings are integer vectors scaled by [`fixed::ONE`], and every step of the
//! synchronous update is specified over these integers.
pub mod bird;
pub mod cell_list;
pub mod fixed;
pub mod grid;
pub mod laws;
pub mod model;
pub mod order;
pub mod proximity;
pub mod random;
pub mod selection;
