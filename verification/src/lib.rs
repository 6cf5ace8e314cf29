//! Verified planner for a crafting/manufacturing network.
//!
//! Given a catalog of recipes, a set of primitive resources with extraction
//! limits, and desired output rates, the library prunes the recipe graph to
//! its feasible subset, formulates the flow network as a linear program over
//! one decision variable per transfer edge, and, once an assignment for those
//! variables is known, reconstructs the labeled production graph with derived
//! machine-clocking information.
//!
//! All quantities are fixed-point integers with six decimal places (see
//! [`units`]): the library itself holds no floating-point value.  The linear
//! program is solved outside the library; [`solver::Prepared`] carries the
//! formulated model out and takes the solved assignment back in.

pub mod data;
pub mod factory;
pub mod model;
pub mod sets;
pub mod solver;
pub mod units;
