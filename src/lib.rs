pub mod cache;
pub mod laws;

pub use cache::StreamCache;
