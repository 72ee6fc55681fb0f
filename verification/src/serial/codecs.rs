/// A codec which splits incoming bytes at a delimiter.
pub mod lines;
