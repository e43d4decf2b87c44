//! Battery charge/discharge scheduling over fixed-length time intervals.
//!
//! The scheduling problem is translated into a canonical simplex tableau
//! (`tableau_creation`), driven to an optimal feasible basis by a two-phase
//! primal simplex solver (`dual_simplex`), and the solution is mapped back
//! onto the interval sequence (`calculation`). All numbers are exact
//! rationals (`rat`), so every arithmetic step is verified precisely.

pub mod calculation;
pub mod data;
pub mod dual_simplex;
pub mod rat;
pub mod tableau_creation;
