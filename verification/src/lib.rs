//! Interview practice structures (arrays, trees, graphs, linked lists), list
//! reversal, and the logic of the exercise quiz: text wrapping, reply parsing,
//! sample selection and the quiz's stepping.

pub mod structures;
pub mod reversal;
pub mod text;
pub mod random;
pub mod sampling;
pub mod quiz;
