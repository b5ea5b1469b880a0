//! The verified core of Slipspace, a remote workspace syncer: the rules by
//! which a caching client and a server daemon keep one directory in step.

pub mod attr;
pub mod bytes;
pub mod cache;
pub mod client_fs;
pub mod digest;
pub mod dir;
pub mod handles;
pub mod link;
pub mod path;
pub mod pathset;
pub mod protocol;
pub mod recency;
pub mod rsync;
pub mod server_fs;
pub mod session;
pub mod signal;
pub mod ssh;
pub mod sync;
pub mod workspace;
