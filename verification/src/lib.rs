//! The exact steps of two vote-ranking scores, over the bits of IEEE 754
//! doubles.
//!
//! A "best" score ranks by a lower confidence bound on the share of positive
//! votes; a "hot" score ranks by the size of the net vote on a logarithmic
//! scale plus a linear bonus for recency. Both are formulas over doubles.
//! Their additions, products, quotients, roots and logarithms round, and are
//! left to the caller's hardware. What they decide without rounding is here,
//! on encodings: whether a total is zero, the direction of a net vote, the
//! argument of the logarithm held at one or above, and the cut to whole
//! numbers that keeps a fixed number of decimal places.

pub mod binary64;
pub mod ranking;
pub mod rounding;
