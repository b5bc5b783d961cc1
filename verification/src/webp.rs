pub mod format_constants;
pub mod types;
