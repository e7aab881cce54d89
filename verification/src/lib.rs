//! Automatic tiling layout: one partition tree per output, kept consistent as
//! windows come and go, with directional focus search over the result.

pub mod arena;
pub mod census;
pub mod data;
pub mod focus;
pub mod geometry;
pub mod insert;
pub mod laws;
pub mod layout;
pub mod merge;
pub mod ops;
pub mod propagate;
pub mod queries;
pub mod remove;
pub mod scale;
pub mod sizes;
pub mod traverse;
pub mod tree;
pub mod update;
pub mod window;
