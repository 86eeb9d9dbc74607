pub mod index;
pub mod laws;
pub mod logger;
pub mod parser;
pub mod rm;
pub mod sm;
pub mod utils;
