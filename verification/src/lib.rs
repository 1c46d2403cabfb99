//! Exact n-gram statistics over byte strings.
//!
//! A text is a sequence of bytes, and an n-gram is the content of a window of
//! `n` consecutive bytes of it. The unit is the byte throughout: a character
//! that takes several bytes spans several windows.
//!
//! * [`calculate_ngrams`] counts the n-grams of a text and gives each its
//!   relative frequency, as a [`Distribution`] of [`Frequency`] values.
//! * [`bh_score`] compares a text with a reference distribution. It yields a
//!   [`Score`]: infinite where nothing can be compared, and otherwise the
//!   terms of a Bhattacharyya coefficient, whose negative logarithm is the
//!   score. [`bh_score_many`] does so for a batch of texts.
//! * [`Distribution::from_weights`] makes a reference from weights that the
//!   caller supplies.
//!
//! Every result is exact. A frequency is a pair of integers, and the crate
//! takes no square root and no logarithm: the caller evaluates a finite score
//! in the arithmetic of its choice.

pub mod count;
pub mod distribution;
pub mod error;
pub mod extract;
pub mod frequency;
pub mod laws;
pub mod order;
pub mod score;
pub mod window;

pub use distribution::{Distribution, Slot};
pub use error::NgramError;
pub use extract::calculate_ngrams;
pub use frequency::Frequency;
pub use order::{compare, Relation};
pub use score::{bh_score, bh_score_many, Score};
