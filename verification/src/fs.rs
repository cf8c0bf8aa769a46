//! Filesystem-shaped things the kernel needs before a real VFS exists:
//! the boot-time ustar initramfs.
pub mod initramfs;
