pub mod db;
pub mod txn;
