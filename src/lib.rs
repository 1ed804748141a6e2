//! Translation of vector-graphics drawing streams into trees of attributed nodes.
//!
//! Two front ends feed one node arena: a builder over parsed markup events and a
//! drawing backend that appends one node per primitive.

pub mod text;
pub mod tree;
pub mod markup;
pub mod style;
pub mod backend;
pub mod chart;
