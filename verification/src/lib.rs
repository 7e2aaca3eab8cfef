//! A monoid-parameterised 2-3 finger tree.
//!
//! The tree stores measured elements, caches monoidal measures at internal
//! nodes, and supports amortised constant-time access at both ends,
//! logarithmic concatenation, and measure-guided splitting and lookup.
//! A double-ended queue facade over the `Size` monoid is layered on top.

pub mod deque;
pub mod measure;
pub mod tree;
