//! PS/2 keyboard support: the i8042 controller, scancode decoding, the
//! IRQ-to-consumer ring, and the consumer API.
pub mod i8042;
pub mod keyboard;
pub mod ring;
pub mod scancode;
