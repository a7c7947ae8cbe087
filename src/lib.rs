mod ids;
pub mod error;
pub mod path;
pub mod tree;
pub mod fsystem;
pub mod records;
pub mod storage;
pub mod project;
pub mod manager;
pub mod api;
pub mod laws;
pub mod sync;
