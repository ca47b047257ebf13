pub mod bytes;
pub mod error;
pub mod fat;
pub mod fs_ops;
pub mod host_ops;
pub mod mem_pool;
pub mod utils;
pub mod vfs;
