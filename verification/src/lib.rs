//! Decoding of fixed-width binary columns from encoded pages.
//!
//! A page holds its values either plainly, one after the other, or as a
//! run-length and bit-packed stream of indices into a dictionary. Either way
//! the values are appended to a byte buffer, with one bit of validity per
//! element where the page has nulls.

pub mod array;
pub mod bitmap;
pub mod collector;
pub mod decoder;
pub mod error;
pub mod gatherer;
pub mod hybrid_rle;
pub mod laws;
pub mod layout;
pub mod null_merge;
pub mod page;
pub mod state;
pub mod validity;
