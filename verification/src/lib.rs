//! A k-means color palette extractor: builds a weighted working set from a
//! sequence of RGB colors, seeds cluster centers (uniformly at random or with a
//! greedy probabilistic strategy), refines them with bounded Lloyd-style
//! iterations, and can pick the most elbow-like `k` from a sweep of runs.

pub mod arith;
pub mod color;
pub mod elbow;
pub mod engine;
pub mod refine;
pub mod rng;
pub mod seeding;
pub mod weighted;

pub use color::Color;
pub use engine::Config;
pub use engine::ImageKmeans;
pub use engine::InitMethod;
pub use engine::KmeansError;
pub use engine::RunResult;
pub use rng::RandomSource;
