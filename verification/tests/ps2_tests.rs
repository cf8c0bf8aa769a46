use otteros_kernel::drivers::ps2::i8042::{is_present, port1_config, set_leds, I8042};
use otteros_kernel::drivers::ps2::keyboard::{
    dropped_count, irq_count, is_available, key_event_to_bytes, poll_event, push_scancode, read_char_blocking, Keyboard,
};
use otteros_kernel::drivers::ps2::ring::SpscRing;
use otteros_kernel::drivers::ps2::scancode::{Decoder, Key, KeyEvent, Modifiers};

fn no_mods() -> Modifiers {
    Modifiers { shift: false, ctrl: false, alt: false, caps_lock: false }
}

#[test]
fn decoder_make_and_break() {
    let mut d = Decoder::new();
    let e = d.feed(0x1e).unwrap();
    assert_eq!(e.key, Key::A);
    assert!(e.pressed);
    assert_eq!(e.to_char(), Some('a'));
    let e = d.feed(0x9e).unwrap();
    assert!(!e.pressed);
    assert_eq!(e.to_char(), None);
}

#[test]
fn decoder_shift_and_extended() {
    let mut d = Decoder::new();
    let e = d.feed(0x2a).unwrap();
    assert_eq!(e.key, Key::LeftShift);
    let e = d.feed(0x1e).unwrap();
    assert_eq!(e.to_char(), Some('A'));
    assert!(d.feed(0xe0).is_none());
    let e = d.feed(0x48).unwrap();
    assert_eq!(e.key, Key::Up);
}

#[test]
fn key_bytes() {
    let up = KeyEvent { key: Key::Up, pressed: true, mods: no_mods() };
    assert_eq!(key_event_to_bytes(&up), vec![0x1b, b'[', b'A']);
    let del = KeyEvent { key: Key::Delete, pressed: true, mods: no_mods() };
    assert_eq!(key_event_to_bytes(&del), vec![0x1b, b'[', b'3', b'~']);
    let bs = KeyEvent { key: Key::Backspace, pressed: true, mods: no_mods() };
    assert_eq!(key_event_to_bytes(&bs), vec![0x7f]);
    let ctrl_c = KeyEvent { key: Key::C, pressed: true, mods: Modifiers { ctrl: true, ..no_mods() } };
    assert_eq!(key_event_to_bytes(&ctrl_c), vec![0x03]);
    let released = KeyEvent { key: Key::A, pressed: false, mods: no_mods() };
    assert_eq!(key_event_to_bytes(&released), Vec::<u8>::new());
    let f1 = KeyEvent { key: Key::F1, pressed: true, mods: no_mods() };
    assert_eq!(key_event_to_bytes(&f1), Vec::<u8>::new());
}

#[test]
fn keyboard_queue_and_read() {
    let mut kb = Keyboard::new();
    push_scancode(&mut kb, 0x23);
    push_scancode(&mut kb, 0xa3);
    push_scancode(&mut kb, 0x17);
    assert_eq!(irq_count(&kb), 3);
    assert_eq!(read_char_blocking(&mut kb), Some('h'));
    assert_eq!(read_char_blocking(&mut kb), Some('i'));
    assert_eq!(read_char_blocking(&mut kb), None);
    assert!(poll_event(&mut kb).is_none());
}

#[test]
fn keyboard_drops_when_full() {
    let mut kb = Keyboard::new();
    for _ in 0..100 {
        push_scancode(&mut kb, 0x1e);
    }
    assert_eq!(irq_count(&kb), 100);
    assert!(dropped_count(&kb) > 0);
}

#[test]
fn caps_lock_requests_led() {
    let mut kb = Keyboard::new();
    push_scancode(&mut kb, 0x3a);
    let e = poll_event(&mut kb).unwrap();
    assert_eq!(e.key, Key::CapsLock);
    assert!(e.mods.caps_lock);
    assert_eq!(kb.take_led_request(), Some(true));
    assert_eq!(kb.take_led_request(), None);
}

#[test]
fn ring_is_fifo() {
    let mut r: SpscRing<u8, 4> = SpscRing::new();
    assert!(r.is_empty());
    r.push(1);
    r.push(2);
    r.push(3);
    r.push(4);
    assert_eq!(r.dropped(), 1);
    assert_eq!(r.pop(), Some(1));
    assert_eq!(r.pop(), Some(2));
    assert_eq!(r.pop(), Some(3));
    assert_eq!(r.pop(), None);
}

#[test]
fn i8042_helpers() {
    let mut c = I8042::new();
    assert!(!is_present(&c));
    assert!(!is_available(&c));
    c.mark_present();
    assert!(is_available(&c));
    assert_eq!(set_leds(true), (0xed, 0x04));
    assert_eq!(set_leds(false), (0xed, 0x00));
    assert_eq!(port1_config(0x10), 0x41);
}
