//! Line search: the lines of a text that contain a pattern, and the
//! validated command-line options of the program that searches a file.

pub mod cli;
pub mod laws;
pub mod search;
