//! Building blocks of a colloscope planner: times of day, linear expressions
//! and constraints over named 0/1 variables, small integer matrices, and the
//! validation of the data describing a colloscope.

pub mod text;
pub mod time;
pub mod order;
pub mod terms;
pub mod linexpr;
pub mod linalg;
pub mod nonzero;
pub mod sets;
pub mod sorted;
pub mod colloscope;
pub mod validation;
pub mod balancing;
pub mod ilp;
pub mod dbg;
pub mod incremental;
pub mod algebra;
pub mod translator;
pub mod icons;
pub mod ndtools;
pub mod interrogations;
pub mod math;
pub mod resolution;
pub mod periods;
pub mod rhythm;
pub mod groups;
pub mod groupings;
pub mod incompat_constraints;
pub mod assembly;
pub mod solving;
