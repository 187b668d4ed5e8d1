pub mod key;
pub mod table;
pub mod map;
pub mod laws;

pub use map::CHashMap;
