pub mod memtable;
pub mod wal;
