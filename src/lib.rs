//! Section structuring and span-mapped rendering for parsed markup documents.
//!
//! A flat sequence of parsed elements is arranged into a tree of sections
//! (`section`), and the tree is rendered to markup in which every block
//! carries the UTF-16 span of the source text it came from (`render`).
pub mod element;
pub mod offset;
pub mod path;
pub mod section;
pub mod render;
