//! A delta compressor for bsdiff 4.x patches.

pub mod bsdiff;
pub mod control;
pub mod encoder;
pub mod index;
pub mod model;
pub mod pack;
pub mod parallel;
pub mod patch;
pub mod search;
pub mod similar;
pub mod walk;

pub use bsdiff::{Bsdiff, BUFFER_SIZE, LEVEL, SMALL_MATCH};
pub use control::Control;
pub use encoder::{Compression, PackError};
pub use index::MAX_LENGTH;
pub use parallel::ParSaDiff;
pub use search::SaDiff;
