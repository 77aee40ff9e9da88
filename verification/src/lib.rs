pub mod keyboard_config;
pub mod twiddler;
pub mod logic;
pub mod session;
pub mod json;
