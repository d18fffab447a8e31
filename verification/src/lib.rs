//! Dictionary coding of repeated record fields.
//!
//! A sender and a receiver each keep a bounded dictionary of field values.
//! A field that the sender's dictionary holds is sent as a one-byte index;
//! the receiver, whose dictionary has seen the same admissions in the same
//! order, resolves the index to the same value.
//!
//! `cache` holds the dictionaries and their contract, `coder` the steps of
//! sender and receiver for one field, `text` the string functions they rest
//! on. `preprocess`, `medium` and `url` are coders for statements, articles
//! and addresses.
pub mod cache;
pub mod coder;
pub mod load;
pub mod medium;
pub mod preprocess;
pub mod text;
pub mod url;
pub mod util;
