//! Concatenates the files of a directory tree into one text, laid out for use
//! in a prompt.
//!
//! The library works on values. What the file system holds at the paths of a
//! run is taken down as a [`tree`]; [`run`] walks it and gives the text, the
//! diagnostics and the error that stopped the run, if one did. The walk
//! itself is in [`walk`], the envelopes of the documents are in [`session`],
//! and [`laws`] states what holds of every walk.

pub mod decimal;
pub mod fence;
pub mod ignore;
pub mod index;
pub mod language;
pub mod laws;
pub mod numbering;
pub mod order;
pub mod paths;
pub mod run;
pub mod session;
pub mod text;
pub mod tree;
pub mod walk;
