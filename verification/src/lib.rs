pub mod digits;
pub mod rules;
pub mod tally;
pub mod grid;
pub mod generator;
pub mod solver;
pub mod killer;
pub mod killer_search;
pub mod rater;
pub mod session;
