pub mod bytes;
pub mod stream;
