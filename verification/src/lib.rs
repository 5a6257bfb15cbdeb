//! Propagation of 2D transforms down a forest of objects.
//!
//! Every object has a local transform, relative to its parent, and a global
//! one, in world space. A propagation cycle ([`systems`]) walks the forest
//! from its roots and says which global transforms are to be written, in which
//! order, and from which parent; [`apply`] makes the writes and [`adapter`]
//! brings the written transforms into the generic form of later stages. The
//! numbers of a transform are held by their bit patterns ([`transform2`]) and
//! are never computed with: what composes two transforms is handed in.
//!
//! [`laws`] states what a cycle achieves; [`forest`] says what a forest is and
//! [`edits`] which edits of a hierarchy keep it one.

pub mod adapter;
pub mod apply;
pub mod cycle;
pub mod edits;
pub mod forest;
pub mod hierarchy;
pub mod laws;
pub mod propagate;
pub mod records;
pub mod systems;
pub mod transform2;
pub mod transform_2d;
