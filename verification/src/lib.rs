pub mod bitmap;
pub mod codec;
pub mod storage;
pub mod types;
