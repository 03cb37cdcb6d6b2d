pub mod chars;
pub mod codec;
pub mod laws;
pub mod provider;
pub mod sort;
pub mod store;
pub mod task;
pub mod timestamp;
