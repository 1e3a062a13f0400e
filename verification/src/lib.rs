//! Approximate matching of a short nucleotide sequence against a read, with
//! the bookkeeping that trims reads by quality.
//!
//! The centre of the library is the [`align::Aligner`]: a banded
//! dynamic-programming search for the best window in which a query aligns
//! to a reference, with mismatches, insertions and deletions up to an error
//! rate, free ends on either sequence, and IUPAC wildcards on one of them.
//!
//! What the aligner returns is defined in [`dp`], as a function of the
//! reference, the query and the configuration. What follows from that
//! definition is proved in the modules beside it:
//!
//! - [`bounds`]: a reported window is never empty, lies within both
//!   sequences, covers the least overlap and is within the error rate;
//! - [`paths`]: what is reported is an alignment, with the reported numbers
//!   of matches and errors, and no alignment costs less than the matrix
//!   says;
//! - [`band`]: the band loses no cell that is within the budget;
//! - [`optimal`]: no path that could be reported is better than the one
//!   that is;
//! - [`monotone`]: raising the error rate, up to 1, loses no alignment;
//! - [`swap`]: what stays the same when reference and query change places.
//!
//! Sequences are compared as bit masks, see [`encode`]. Error rates are
//! binary64 numbers in integer arithmetic, see [`rate`].
//!
//! Reads are trimmed by [`qual_trim`] on a [`trimming::Trimming`], in the
//! order that a [`pipeline::Pipeline`] gives.

pub mod accept;
pub mod align;
pub mod band;
pub mod bounds;
mod column;
pub mod cutadapt_encode;
pub mod dp;
pub mod encode;
pub mod full;
pub mod matrix_text;
pub mod monotone;
pub mod optimal;
pub mod paths;
pub mod pipeline;
pub mod qual_trim;
pub mod rate;
pub mod rate_order;
pub mod starts;
pub mod swap;
pub mod trimming;
