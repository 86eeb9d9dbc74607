pub mod logger;
