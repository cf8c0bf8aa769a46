//! The i8042 PS/2 controller: what the kernel knows of it (whether its
//! bring-up succeeded) and the command bytes the keyboard logic sends it.
use vstd::prelude::*;

verus! {

/// Device command: set the keyboard LEDs (the next data byte says which).
pub const DEV_SET_LEDS: u8 = 0xED;
/// LED byte bit for Caps Lock.
pub const LED_CAPS_LOCK: u8 = 0x04;
/// Controller config bit: port-1 interrupt (IRQ1) enabled.
pub const CONFIG_PORT1_IRQ: u8 = 0x01;
/// Controller config bit: port-1 clock disabled.
pub const CONFIG_PORT1_CLOCK_DISABLE: u8 = 0x10;
/// Controller config bit: scancode set 2 to set 1 translation.
pub const CONFIG_PORT1_TRANSLATION: u8 = 0x40;

/// The controller's bring-up state.
pub struct I8042 {
    present: bool,
}

impl I8042 {
    /// A controller whose bring-up has not (yet) succeeded.
    pub fn new() -> (r: Self)
        ensures
            !r.present_spec(),
    {
        I8042 { present: false }
    }

    pub closed spec fn present_spec(&self) -> bool {
        self.present
    }

    /// Records that the bring-up sequence completed.
    pub fn mark_present(&mut self)
        ensures
            final(self).present_spec(),
    {
        self.present = true;
    }
}

/// Whether the i8042 bring-up sequence completed successfully.
pub fn is_present(ctl: &I8042) -> (r: bool)
    ensures
        r == ctl.present_spec(),
{
    ctl.present
}

/// The two data-port bytes that set (or clear) the Caps Lock LED:
/// `DEV_SET_LEDS`, then the LED byte.
pub fn set_leds(caps_lock: bool) -> (r: (u8, u8))
    ensures
        r.0 == DEV_SET_LEDS,
        r.1 == if caps_lock { LED_CAPS_LOCK } else { 0 },
{
    let led_byte = if caps_lock { LED_CAPS_LOCK } else { 0 };
    (DEV_SET_LEDS, led_byte)
}

/// The controller config byte bring-up writes back: port-1 IRQ and
/// translation on, port-1 clock enabled, every other bit as read.
pub fn port1_config(config: u8) -> (r: u8)
    ensures
        r == (config | CONFIG_PORT1_IRQ | CONFIG_PORT1_TRANSLATION) & !CONFIG_PORT1_CLOCK_DISABLE,
        r & CONFIG_PORT1_IRQ != 0,
        r & CONFIG_PORT1_TRANSLATION != 0,
        r & CONFIG_PORT1_CLOCK_DISABLE == 0,
{
    let r = (config | CONFIG_PORT1_IRQ | CONFIG_PORT1_TRANSLATION) & !CONFIG_PORT1_CLOCK_DISABLE;
    assert(((config | 0x01u8 | 0x40u8) & !0x10u8) & 0x01 != 0
        && ((config | 0x01u8 | 0x40u8) & !0x10u8) & 0x40 != 0
        && ((config | 0x01u8 | 0x40u8) & !0x10u8) & 0x10 == 0) by (bit_vector);
    r
}

} // verus!
