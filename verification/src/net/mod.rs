pub mod ws;
