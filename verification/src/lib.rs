pub mod text;
pub mod clock;
pub mod config;
pub mod gtfs_rt;
pub mod schedule;
pub mod board;
pub mod refresh;
