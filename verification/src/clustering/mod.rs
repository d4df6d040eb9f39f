//! Clustering of cases: hierarchy cuts and count-based case distances.

pub mod agglomerative;
pub mod case_counts;
pub mod k_medoids;
