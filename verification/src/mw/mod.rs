pub mod mmr;
pub mod kernel;
pub mod transaction;
pub mod keychain;
pub mod slate;
pub mod block;
pub mod chain;
