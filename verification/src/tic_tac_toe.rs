//! The search engine of a tic-tac-toe agent for square boards with walls: a
//! position scores one point per completed line of three for X and minus one for O.
pub mod agent;
pub mod board;
pub mod clock;
pub mod lines;
pub mod line_shapes;
pub mod ordering;
pub mod state;
pub mod zobrist;
