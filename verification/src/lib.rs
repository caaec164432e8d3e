//! Verified core of a caching forward proxy.

pub mod bytes_util;
pub mod entry;
pub mod codec;
pub mod storage_path;
pub mod cache;
pub mod router;
pub mod orchestrator;
