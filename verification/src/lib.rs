//! A space-efficient set for mostly contiguous elements.
//!
//! A [`RangeSet`] stores maximal contiguous runs of values as inclusive
//! ranges and coalesces adjacent runs eagerly on insertion, so membership
//! and insertion cost grows with the number of disjoint runs rather than
//! with the number of individual members. The backing container is
//! abstract: the set relies only on the ordered-range repository contract
//! in [`storage`], and the gaps between the stored runs can be derived
//! with [`compliment`].

pub mod compliment;
pub mod element;
pub mod set;
pub mod storage;

pub use set::RangeSet;
