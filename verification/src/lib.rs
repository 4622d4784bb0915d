pub mod types;
pub mod engine;
pub mod ai;
pub mod ai2;
pub mod random;
pub mod runner;
pub mod pockets;
pub mod marks;
pub mod checks;
pub mod rounding;
