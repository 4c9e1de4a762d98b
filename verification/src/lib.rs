pub mod actions;
pub mod ascii;
pub mod board;
pub mod client;
pub mod client_examples;
pub mod example_client;
pub mod messages;
pub mod mino;
pub mod penalty;
pub mod render;
pub mod rows;
pub mod versus;
