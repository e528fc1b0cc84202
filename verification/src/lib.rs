//! Verified cores of four small Rust projects: a growable vector with an
//! explicit capacity policy, a query engine over in-memory datasets, the
//! search engine of a tic-tac-toe agent, and the pure parts of a chatbot.
use vstd::prelude::*;

pub mod analytics;
pub mod chatbot;
pub mod fast_vec;
pub mod tic_tac_toe;

verus! {

} // verus!
