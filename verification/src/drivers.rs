//! Device-protocol logic: PS/2 keyboard, PCI and virtio.
pub mod pci;
pub mod ps2;
pub mod virtio;
