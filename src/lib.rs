pub mod bytes;
pub mod codec;
pub mod config;
pub mod discovery;
pub mod grib;
pub mod keys;
pub mod levels;
pub mod listing;
pub mod merge;
pub mod phase;
pub mod scheduler;
pub mod snapshot;
pub mod storage;
pub mod traffic;
pub mod volume;
pub mod wire;
pub mod util;
