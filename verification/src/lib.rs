//! Subtyping between rate-limit specifications.
//!
//! A rate bounds how many events may fall into any interval of a given
//! length. Rates are combined by union, parallel merge and sequential
//! composition, and this crate decides whether every traffic pattern allowed
//! by one such combination is allowed by another.
//!
//! - [`rate`]: rates, and the numeric rule that judges two of them.
//! - [`stream`]: stream-rate expressions, and the structural terms that
//!   they are lowered to, one way on each side of a judgment.
//! - [`normal`]: the rewriting that pushes the structural combinators
//!   below the logical ones.
//! - [`formula`]: integer constraint problems, and the check of a model
//!   against one.
//! - [`encode`]: the encoding of a judgment between structural terms as a
//!   constraint problem.
//! - [`decide`]: the decision procedure. It does no solving of its own: it
//!   says which problem is to be solved next and takes the outcome back.
//! - [`parse`] and [`render`]: the textual form of a judgment, read and
//!   written.

pub mod decide;
pub mod encode;
pub mod formula;
pub mod normal;
pub mod parse;
pub mod rate;
pub mod render;
pub mod stream;
