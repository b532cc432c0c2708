pub mod base;
pub mod crypto;
pub mod lmdb;
pub mod mw;
pub mod store;
pub mod util;
pub mod evh;
pub mod net;
pub mod bible;
