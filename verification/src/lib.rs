pub mod marked;
pub mod probe;
pub mod hash;
pub mod table;
pub mod cache;
