pub mod deadlock;
pub mod renumber;
