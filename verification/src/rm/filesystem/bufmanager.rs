pub mod buf_page_manager;
pub mod find_replace;
