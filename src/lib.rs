//! Board model and search strategies for a tile-clearing puzzle played on a
//! fixed 22 x 11 grid of phased tiles.
pub mod board;
pub mod connectivity;
pub mod laws;
pub mod optimality;
pub mod search;
pub mod greedy;
pub mod parallel;
pub mod methods;
pub mod recognition;
pub mod script;
