pub mod opt;
pub mod block;
pub mod read;
pub mod write;
pub mod bloom;
pub mod footer;
