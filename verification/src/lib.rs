//! Clustering algorithms for ternary data: vectors whose entries are -1, 0 or +1.
//!
//! The library offers K-means with ternary centroid rounding, DBSCAN over the
//! Hamming distance, agglomerative (hierarchical) merging, the exact quantities
//! behind the silhouette and Davies-Bouldin validity indices, and the distance
//! functions they are built on. Every function is specified over the
//! mathematical model of its inputs and proved by Verus; all arithmetic is exact
//! (integers and fractions).

pub mod ternary;
pub mod distance;
pub mod fraction;
pub mod centroid;
pub mod dbscan;
pub mod kmeans;
pub mod hierarchical;
pub mod validity;

pub use ternary::Ternary;
pub use distance::{ternary_sq_distance, hamming_distance};
pub use centroid::{nearest_centroid, compute_centroid};
pub use dbscan::dbscan;
pub use kmeans::kmeans;
pub use hierarchical::{hierarchical, Linkage, Merge};
pub use validity::{silhouette_inputs_of, silhouette_coefficient, cluster_spreads, davies_bouldin_terms, SilhouetteInput};
