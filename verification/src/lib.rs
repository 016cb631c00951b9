//! Verified counting kernels for the net tally of two marker bytes.
//!
//! Every kernel takes a read-only string, counts occurrences of the marker
//! byte `b's'` minus occurrences of the marker byte `b'p'`, and returns the
//! signed 64-bit difference. The kernels range from a byte-at-a-time scalar
//! reference to lane-based accumulation with a periodic widening flush, and
//! each one carries a contract pinning its result to the same mathematical
//! count.

pub mod chunked;
pub mod encoding;
pub mod lanes;
pub mod model;
pub mod sample;
pub mod scalar;

pub use chunked::opt6_chunk_count;
pub use chunked::opt6_chunk_exact_count;
pub use chunked::CHUNK;
pub use lanes::opt3_simd_naive;
pub use lanes::opt4_simd;
pub use lanes::opt5_simd_unrolled;
pub use lanes::FLUSH_PERIOD;
pub use lanes::N_LANES;
pub use model::MARKER_A;
pub use model::MARKER_B;
pub use sample::gen_random_input;
pub use scalar::baseline;
pub use scalar::baseline_bytes;
pub use scalar::baseline_unicode;
pub use scalar::opt1_idiomatic;
pub use scalar::opt2_count_s;
pub use scalar::opt3_count_s_branchless;
