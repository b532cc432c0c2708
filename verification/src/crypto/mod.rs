pub mod sha3;
pub mod secp;
pub mod cpsrng;
pub mod ctx;
pub mod keys;
pub mod pedersen;
pub mod range_proof;
pub mod signature;
pub mod ecdh;
pub mod kernel;
pub mod types;
pub mod order;
