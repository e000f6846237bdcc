//! Devices: the memory that they share with the processor.
pub mod virtio;
