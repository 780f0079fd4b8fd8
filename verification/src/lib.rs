//! Multi-scalar multiplication on elliptic curves, with machine-checked proofs.

pub mod affine;
pub mod algebra;
pub mod batch;
pub mod booth;
pub mod buckets;
pub mod curve;
pub mod independent;
pub mod meeting;
pub mod parallel;
pub mod precompute;
pub mod schedule;
pub mod serial;
pub mod tiny;
pub mod window;

pub use algebra::AbelianGroup;
pub use booth::{get_booth_index, get_field_sign};
pub use curve::{CurveAffine, Field, Group, PrimeField};
pub use independent::{best_multiexp_independent_points, try_multiexp_independent_points};
pub use parallel::best_multiexp;
pub use precompute::{
    best_multiexp_precompute_serial, multiexp_precompute, multiexp_precompute_serial,
};
pub use serial::multiexp_serial;
pub use window::window_size;
