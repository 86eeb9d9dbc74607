pub mod file_manager;
