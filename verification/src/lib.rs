//! Odd-to-odd steps of the maps `T(n) = (x*n + 1) / 2^d` for multipliers
//! `x = 2^s + 1`, on numbers held as two packed streams of bit pairs.
//!
//! A step is one pass of a two-stage ripple adder over the pairs, with
//! every pair classified as Generate, Propagate or Kill, followed by the
//! shift that takes the factors of two out. The crate has the step pair by
//! pair and word by word, trajectories and stopping times on top of it, and
//! the verification of ranges of odd numbers.

pub mod adder;
pub mod big;
pub mod bits;
pub mod cancel;
pub mod model;
pub mod packed;
pub mod pair_number;
pub mod postprocess;
pub mod reference;
pub mod scan;
pub mod stamp;
pub mod streams;
pub mod trajectory;
pub mod u256;
pub mod verify;

pub use pair_number::PairNumber;
pub use scan::{collatz_step, collatz_step_3n1, collatz_step_5n1, Gpk, GpkInfo, GpkStats, StepResult};
pub use trajectory::{
    predicate_bits_msb, stopping_time, stopping_time_u64_fast, stopping_time_with_gpk,
    trace_trajectory, trace_trajectory_cancellable, trace_trajectory_with_callback,
    words_to_bits_msb, PairStep, TrajectoryResult, PREDICATE_NAMES,
};
pub use verify::{
    verify_range, verify_range_parallel, verify_range_parallel_cancellable, VerifyResult,
};
