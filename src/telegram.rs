pub mod chat;
pub mod config;
