pub mod bookkeeping;
pub mod cheapest;
pub mod frontier;
pub mod generate;
pub mod grid;
pub mod history;
pub mod picture;
pub mod progress;
pub mod search;
pub mod shortest;
