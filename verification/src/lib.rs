//! Finds visually near-duplicate images: each image is reduced to a
//! fixed-width perceptual fingerprint, fingerprints are compared pairwise by
//! Hamming distance, and images whose fingerprints differ by no more than a
//! threshold are grouped into duplicate clusters.

pub mod args;
pub mod cluster;
pub mod cluster_laws;
pub mod fingerprint;
pub mod hashing;

pub use args::Args;
pub use cluster::get_clusters;
pub use cluster::ClusterMap;
pub use fingerprint::Fingerprint;
pub use hashing::hash_img;
pub use hashing::hash_img_list;
pub use hashing::hash_source;
pub use hashing::make_hasher;
pub use hashing::HashConfig;
pub use hashing::HashOutcome;
pub use hashing::HashSizeError;
pub use hashing::ImageSource;
