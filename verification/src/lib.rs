pub mod text;
pub mod utils;
pub mod crypt;
pub mod network;
pub mod settings;
pub mod commands;
pub mod ui;
