pub mod compaction;
pub mod levels;
