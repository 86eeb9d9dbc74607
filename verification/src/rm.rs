pub mod filesystem;
pub mod pagedef;
pub mod record;
