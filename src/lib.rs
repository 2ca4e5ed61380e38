//! A 3x3x3 twisty puzzle in two interchangeable models, the rotation
//! permutation they share, and a breadth-first solver.
//!
//! - `color`, `rotation`: face identities, directions and moves.
//! - `block`, `rubiks_cube`: the piece model, its turns, face queries, text
//!   and the solver.
//! - `bit_cube`: the bit-packed model: nine 3-bit cells per face word.
//! - `equivalence`: both models show the same cube after the same moves.
pub mod color;
pub mod rotation;
pub mod block;
pub mod rubiks_cube;
pub mod bit_cube;
pub mod equivalence;
