//! The container format, its index codec, and the writer and reader state.
pub mod codec;
pub mod format;
pub mod theorems;
pub mod v1;

pub use v1::{GasError, GasFileReader, GasFileWriter, Locations};
