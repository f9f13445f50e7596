pub mod database;
pub mod markov;
pub mod telegram;
