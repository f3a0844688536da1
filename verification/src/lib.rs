//! Sorting of IP addresses and CIDR blocks by numeric value, with the
//! decoration around them (list markers, quotes, keys, comments) preserved.
//!
//! The library is split by stage:
//! - `parse`: the network value, token parsing and normalization;
//! - `sort`: the ordering of networks;
//! - `stable`: a stable sort by that ordering, with its laws;
//! - `classify`: lines decomposed into spans and classified;
//! - `blocks`: block-wise and inline sorting, deduplication, and (in
//!   `blocks::aggregate`) aggregation into minimal supernets;
//! - `output`: rendering of classified lines;
//! - `pipeline`: the whole run, from input lines to rendered output.

pub mod parse;
pub mod sort;
pub mod stable;
pub mod classify;
pub mod output;
pub mod blocks;
pub mod pipeline;
