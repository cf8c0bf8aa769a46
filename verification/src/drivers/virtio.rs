//! Virtio devices over PCI: the split virtqueue, the block device's
//! request planning, the transport's register layout, and the capability
//! parsing that finds it.
pub mod blk;
pub mod net;
pub mod pci;
pub mod queue;
