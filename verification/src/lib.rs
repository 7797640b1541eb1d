pub mod frontier;
pub mod model;
pub mod rng;
pub mod search;
pub mod state;
pub mod timer;
