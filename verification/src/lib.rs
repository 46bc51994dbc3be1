//! Decision trees over categorical features.
//!
//! A tree is grown from labelled samples by splitting, at each step, on the
//! feature whose impurity lies furthest below the impurity of the samples at
//! hand, and it classifies a feature vector by walking from the root along
//! the routes of the values it reads. Impurities are exact fractions, so the
//! choice of a feature never depends on rounding.
//!
//! - [`natural`] and [`score`]: the exact arithmetic of impurity scores.
//! - [`impurity`]: the impurity of a feature over observed values and labels.
//! - [`provider`] and [`sample`]: the functions that read features, and the
//!   samples they read them from.
//! - [`node`]: the tree and how it classifies.
//! - [`builder`]: how a tree is grown.
//! - [`laws`]: what holds of every tree that is grown.
pub mod builder;
pub mod impurity;
pub mod laws;
pub mod natural;
pub mod node;
pub mod provider;
pub mod sample;
pub mod score;
