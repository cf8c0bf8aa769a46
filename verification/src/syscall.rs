//! System-call conventions.
pub mod errno;
pub mod table;
