pub mod block_device;
pub mod memory_device;
pub mod cached_device;
pub mod counting_device;
