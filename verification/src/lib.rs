//! Input generators and a reference language oracle for regular expressions.
pub mod bytes;
pub mod oracle;
pub mod pattern;
pub mod positions;
pub mod regex;
pub mod strings;
pub mod syntax;
pub mod tree;

pub use bytes::Bytes;
pub use oracle::reference_matches;
pub use pattern::{in_shared_alphabet, pattern, Dialect};
pub use positions::boundaries;
pub use regex::{CharRange, Count, Regex};
pub use tree::tree;
