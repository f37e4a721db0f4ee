# ternary_clustering

Clustering for ternary data (vectors over {-1, 0, +1}), written in Verus: every
function in `src/` carries a contract over a mathematical model of its inputs, and
Verus proves the code against it.

- `src/ternary.rs` — the `Ternary` values and their integer meaning.
- `src/distance.rs` — squared Euclidean and Hamming distances, with their ranges,
  symmetry, relation to each other, and when they are 0.
- `src/fraction.rs` — exact comparison of fractions, used wherever a mean is compared.
- `src/centroid.rs` — nearest centroid (first one on a tie) and the ternary-rounded
  mean of a group of points, computed exactly with integers.
- `src/kmeans.rs` — K-means: the result is specified as the state after the rounds of
  assignment and update; stable results are final and assign points to nearest centroids,
  and a result that one more round leaves unchanged is stable.
- `src/dbscan.rs` — DBSCAN: the labelling is characterised declaratively (core points,
  borders, noise, numbering, connectivity), and that characterisation is proved unique.
- `src/hierarchical.rs` — agglomerative merging with single, complete and average
  linkage; distances are exact fractions.
- `src/validity.rs` — the silhouette and Davies-Bouldin indices up to their last
  step: per-point silhouette coefficients and per-cluster worst Davies-Bouldin ratios,
  as exact fractions, with the cases where an index is 0 by definition.
- `app/lib.rs` — the floating-point scores (`silhouette_score`, `davies_bouldin_index`,
  and a dendrogram with `f64` distances): the mean of the library's exact terms.
- `tests/` — usage scenarios, and the laws checked on concrete values.
