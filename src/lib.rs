//! A Kolmogorov-Arnold network engine.
//!
//! The network keeps its edges in an arena ([`network::KAN`]); nodes refer
//! to edges by index, so one edge is shared by the node it leaves and the
//! node it enters. Layers route their input rows to the nodes' incoming
//! edges and refuse every input whose shape disagrees with the wiring. The
//! containers ([`vector::Vector`], [`matrix::Matrix`]) and the Cox-de Boor
//! scheme ([`spline::basis_row`]) are generic in the scalar type: they check
//! shapes and move values, and take the arithmetic on scalars as closures.
pub mod error;
pub mod layer;
pub mod matrix;
pub mod network;
pub mod node;
pub mod spline;
pub mod vector;
