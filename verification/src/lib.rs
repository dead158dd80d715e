//! Bulk editing of a directory tree through a plain-text listing.
//!
//! A tree is listed as text, one line per path, each with a short identifier
//! ([`output`], [`encode_rand`], [`find_prefix`], [`sort`]). The user edits
//! the listing into a recipe: lines that add, copy, delete and move. The
//! recipe is read into a buffer ([`parse`], [`models`]) and can be written
//! back aligned ([`format`], [`round_trip`]). What to do on disk for each
//! entry is decided here and done by the caller ([`apply`], [`rerun`]), after
//! the changes were put before the user ([`commit`], [`paint`]).
//!
//! The library does no input or output. Paths are held as text.

pub mod apply;
pub mod commit;
pub mod encode_rand;
pub mod find_prefix;
pub mod format;
pub mod models;
pub mod output;
pub mod paint;
pub mod parse;
pub mod rerun;
pub mod round_trip;
pub mod sort;
pub mod text;
