//! A dense numeric matrix library over 64-bit scalar words.
//!
//! A [`Matrix`] is a rectangular, row-major array of 64-bit scalars.  The
//! library itself never interprets a scalar arithmetically: each scalar is
//! carried as its 64-bit encoding (`u64`), in the intended use the IEEE-754
//! double-precision encoding of a number.  Every operation that has to
//! combine two scalars (add them, multiply them, take a square root) receives
//! the combining function as a *kernel* argument, a closure supplied by the
//! caller, and the operation's contract relates each result cell to the
//! kernel's own contract.  Everything else — shape rules, row-major layout,
//! element movement, sorting, counting, and the exact conditions under which
//! each error is returned — is stated and proved here.

pub mod aggregate;
pub mod kernel;
pub mod laws;
pub mod matrix;
pub mod order;
pub mod stats;
pub mod structures;

pub use aggregate::distance;
pub use aggregate::dot;
pub use aggregate::mean;
pub use structures::Matrix;
pub use structures::MatrixData;
pub use structures::MatrixError;
pub use structures::PercentileRank;
