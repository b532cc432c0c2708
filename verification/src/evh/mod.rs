pub mod slabs;
pub mod state;
pub mod config;
