pub mod error;
pub mod misc;
