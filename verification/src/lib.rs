pub mod active;
pub mod arrow;
pub mod assignment;
pub mod atom;
pub mod certificate;
pub mod circles;
pub mod coloring;
pub mod contraction;
pub mod coordinates;
pub mod degrees;
pub mod descent;
pub mod diagnostics;
pub mod evidence;
pub mod exact;
pub mod fixed;
pub mod fixed_point;
pub mod forms;
pub mod gradients;
pub mod gram;
pub mod hyper;
pub mod landscape;
pub mod layout;
pub mod marginals;
pub mod matrix;
pub mod objective;
pub mod operator;
pub mod peaks;
pub mod pooling;
pub mod problems;
pub mod quadratic;
pub mod repetition;
pub mod reroute;
pub mod rounding;
pub mod router;
pub mod routing;
pub mod row_solve;
pub mod scalar;
pub mod scaling;
pub mod selection;
pub mod slopes;
pub mod solving;
pub mod spectral;
pub mod stationarity;
pub mod steps;
pub mod sweep;
pub mod term;
pub mod trials;
pub mod unroll;
pub mod updates;
pub mod upkeep;
