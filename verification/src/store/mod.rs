pub mod keys;
pub mod pmmr;
