//! Choosing a stable resolution for a clustering that was run at many resolutions.
//!
//! The clusterings are laid out in layers by their number of clusters. Every clustering is
//! scored against the clusterings of the layer just below it by how well its clusters stay
//! together, and hangs below the one through which the summed stability from a root is
//! largest. The branch of a leaf is then trimmed where its stability drops, and the
//! lineage of the clusters along the trimmed branch is written down.
//!
//! All stabilities are exact fractions, and a resolution is an integer that orders the
//! resolutions as their values do.

pub mod arrangement;
pub mod data;
pub mod error;
pub mod genealogy;
pub mod graph;
pub mod input;
pub mod natural;
pub mod optimisation;
pub mod overlap_theory;
pub mod ratio;
