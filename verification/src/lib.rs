pub mod files;
pub mod walker;
