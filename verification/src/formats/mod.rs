pub mod format;
pub mod v1;
