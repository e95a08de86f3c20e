//! Inspection of files and directories: a lazy stream, a heuristic
//! syntax colorizer, a line numberer and a directory tree renderer.

pub mod colorize;
pub mod colorize_laws;
pub mod directory;
pub mod line_numbers;
pub mod stream;
pub mod paint;
pub mod path;
pub mod peekable;
pub mod text;
pub mod tree;
