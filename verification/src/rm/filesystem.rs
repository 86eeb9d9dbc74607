pub mod bufmanager;
pub mod fileio;
pub mod pagedef;
pub mod utils;
