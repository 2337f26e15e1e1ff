pub mod header;
pub mod write;
