pub mod arena;
pub mod skip_list;
