//! The keyboard consumer: raw scancode bytes from the IRQ handler go into
//! a ring; the consumer decodes them into key events and characters, and
//! turns events into the bytes a terminal expects.
use vstd::prelude::*;
use super::ring::{SpscRing, counter_inc};
use super::scancode::{Decoder, Key, KeyEvent, Modifiers, CharKind, feed_spec, event_char, key_chars};
use super::i8042::{I8042, is_present};

verus! {

/// Raw scancode bytes the ring holds between the IRQ handler and the
/// consumer, plus the one slot a full ring keeps free.
pub const RING_CAPACITY: usize = 64;

/// The keyboard's state: undecoded bytes, the decoder, the IRQ counter,
/// and the Caps Lock LED state decoding last asked for and nobody has sent
/// to the device yet.
pub struct Keyboard {
    ring: SpscRing<u8, RING_CAPACITY>,
    decoder: Decoder,
    irq_count: u64,
    led_request: Option<bool>,
}

/// The LED request after event `e`: a Caps Lock press asks for the LED to
/// show the new caps-lock state.
pub open spec fn led_after(led: Option<bool>, e: KeyEvent) -> Option<bool> {
    if e.key == Key::CapsLock && e.pressed { Some(e.mods.caps_lock) } else { led }
}

/// Feeding `s` from the front until a byte completes an event: how many
/// bytes that takes, the decoder state after, the LED request after, and
/// the event (`None` if `s` runs out first).
pub open spec fn poll_spec(m: Modifiers, p: bool, led: Option<bool>, s: Seq<u8>)
    -> (nat, Modifiers, bool, Option<bool>, Option<KeyEvent>)
    decreases s.len(),
{
    if s.len() == 0 {
        (0, m, p, led, None)
    } else {
        let (m1, p1, e) = feed_spec(m, p, s[0]);
        match e {
            Some(ev) => (1, m1, p1, led_after(led, ev), Some(ev)),
            None => {
                let r = poll_spec(m1, p1, led, s.drop_first());
                (r.0 + 1, r.1, r.2, r.3, r.4)
            },
        }
    }
}

/// Feeding `s` from the front until an event types a character: how many
/// bytes that takes, the decoder state after, the LED request after, and
/// the character (`None` if `s` runs out first).
pub open spec fn read_spec(m: Modifiers, p: bool, led: Option<bool>, s: Seq<u8>)
    -> (nat, Modifiers, bool, Option<bool>, Option<char>)
    decreases s.len(),
{
    if s.len() == 0 {
        (0, m, p, led, None)
    } else {
        let (m1, p1, e) = feed_spec(m, p, s[0]);
        let led1 = match e {
            Some(ev) => led_after(led, ev),
            None => led,
        };
        if e is Some && event_char(e.unwrap()) is Some {
            (1, m1, p1, led1, event_char(e.unwrap()))
        } else {
            let r = read_spec(m1, p1, led1, s.drop_first());
            (r.0 + 1, r.1, r.2, r.3, r.4)
        }
    }
}

/// The Ctrl+letter control byte, 0x01 for A through 0x1A for Z.
pub open spec fn ctrl_byte(k: Key) -> Option<u8> {
    match k {
        Key::A => Some(0x01u8), Key::B => Some(0x02u8), Key::C => Some(0x03u8), Key::D => Some(0x04u8),
        Key::E => Some(0x05u8), Key::F => Some(0x06u8), Key::G => Some(0x07u8), Key::H => Some(0x08u8),
        Key::I => Some(0x09u8), Key::J => Some(0x0Au8), Key::K => Some(0x0Bu8), Key::L => Some(0x0Cu8),
        Key::M => Some(0x0Du8), Key::N => Some(0x0Eu8), Key::O => Some(0x0Fu8), Key::P => Some(0x10u8),
        Key::Q => Some(0x11u8), Key::R => Some(0x12u8), Key::S => Some(0x13u8), Key::T => Some(0x14u8),
        Key::U => Some(0x15u8), Key::V => Some(0x16u8), Key::W => Some(0x17u8), Key::X => Some(0x18u8),
        Key::Y => Some(0x19u8), Key::Z => Some(0x1Au8),
        _ => None,
    }
}

/// The bytes a terminal gets for event `e`: nothing on release, the
/// control byte for Ctrl+letter, ANSI escape sequences for the cursor
/// keys and Delete, 0x7F for Backspace, else the typed character.
pub open spec fn event_bytes(e: KeyEvent) -> Seq<u8> {
    if !e.pressed {
        Seq::empty()
    } else if e.mods.ctrl && ctrl_byte(e.key) is Some {
        seq![ctrl_byte(e.key).unwrap()]
    } else {
        match e.key {
            Key::Up => seq![0x1Bu8, 0x5Bu8, 0x41u8],
            Key::Down => seq![0x1Bu8, 0x5Bu8, 0x42u8],
            Key::Right => seq![0x1Bu8, 0x5Bu8, 0x43u8],
            Key::Left => seq![0x1Bu8, 0x5Bu8, 0x44u8],
            Key::Home => seq![0x1Bu8, 0x5Bu8, 0x48u8],
            Key::End => seq![0x1Bu8, 0x5Bu8, 0x46u8],
            Key::Delete => seq![0x1Bu8, 0x5Bu8, 0x33u8, 0x7Eu8],
            Key::Backspace => seq![0x7Fu8],
            _ => match event_char(e) {
                Some(c) => seq![c as u8],
                None => Seq::empty(),
            },
        }
    }
}

/// Ctrl with a letter key types that letter's control code, its place in
/// the alphabet (Ctrl-A is 1, ... Ctrl-Z is 26), and no other key has
/// one; letters type lower case, upper case with shift.
pub proof fn law_ctrl_letters(k: Key)
    ensures
        key_chars(k) matches Some((lo, hi, CharKind::Letter)) ==> {
            &&& 'a' <= lo <= 'z'
            &&& hi as u32 == lo as u32 - 32
            &&& ctrl_byte(k) == Some((lo as u32 - 0x60) as u8)
        },
        ctrl_byte(k) is Some ==> key_chars(k) matches Some((_, _, CharKind::Letter)),
{
}

/// The bytes a pressed key sends to the terminal: with Ctrl, a letter's
/// control code; the arrows, Home, End and Delete as ANSI escape sequences
/// (`ESC [ A` up, `B` down, `C` right, `D` left, `H` Home, `F` End,
/// `3 ~` Delete); Backspace as DEL (0x7F); any other key the one
/// character it types, if any. A release sends nothing.
pub proof fn law_event_bytes(e: KeyEvent)
    ensures
        !e.pressed ==> event_bytes(e) == Seq::<u8>::empty(),
        e.pressed && e.mods.ctrl ==> (key_chars(e.key) matches Some((lo, _, CharKind::Letter))
            ==> event_bytes(e) == seq![(lo as u32 - 0x60) as u8]),
        e.pressed && !e.mods.ctrl ==> event_bytes(e) == match e.key {
            Key::Up => seq![0x1Bu8, 0x5Bu8, 0x41u8],
            Key::Down => seq![0x1Bu8, 0x5Bu8, 0x42u8],
            Key::Right => seq![0x1Bu8, 0x5Bu8, 0x43u8],
            Key::Left => seq![0x1Bu8, 0x5Bu8, 0x44u8],
            Key::Home => seq![0x1Bu8, 0x5Bu8, 0x48u8],
            Key::End => seq![0x1Bu8, 0x5Bu8, 0x46u8],
            Key::Delete => seq![0x1Bu8, 0x5Bu8, 0x33u8, 0x7Eu8],
            Key::Backspace => seq![0x7Fu8],
            _ => match event_char(e) {
                Some(c) => seq![c as u8],
                None => Seq::<u8>::empty(),
            },
        },
{
    law_ctrl_letters(e.key);
}

impl Keyboard {
    /// No bytes queued, no modifiers held, no IRQs seen.
    pub fn new() -> (r: Self)
        ensures
            r.wf(),
            r.pending_bytes() == Seq::<u8>::empty(),
            r.mods() == (Modifiers { shift: false, ctrl: false, alt: false, caps_lock: false }),
            !r.pending_prefix(),
            r.irq_count_spec() == 0,
            r.dropped_spec() == 0,
            r.led_request_spec().is_none(),
    {
        Keyboard { ring: SpscRing::new(), decoder: Decoder::new(), irq_count: 0, led_request: None }
    }

    pub closed spec fn wf(&self) -> bool {
        self.ring.wf()
    }

    /// The raw bytes received and not yet decoded, oldest first.
    pub closed spec fn pending_bytes(&self) -> Seq<u8> {
        self.ring@
    }

    /// The decoder's modifier state.
    pub closed spec fn mods(&self) -> Modifiers {
        self.decoder.mods()
    }

    /// Whether the decoder holds an `0xE0` prefix.
    pub closed spec fn pending_prefix(&self) -> bool {
        self.decoder.pending()
    }

    pub closed spec fn irq_count_spec(&self) -> u64 {
        self.irq_count
    }

    pub closed spec fn dropped_spec(&self) -> u64 {
        self.ring.dropped_spec()
    }

    /// The Caps Lock LED state still to be sent to the device.
    pub closed spec fn led_request_spec(&self) -> Option<bool> {
        self.led_request
    }

    /// Hands over the pending LED request (to be written to the device
    /// with `i8042::set_leds`) and clears it.
    pub fn take_led_request(&mut self) -> (r: Option<bool>)
        requires
            old(self).wf(),
        ensures
            final(self).wf(),
            r == old(self).led_request_spec(),
            final(self).led_request_spec().is_none(),
            final(self).pending_bytes() == old(self).pending_bytes(),
            final(self).mods() == old(self).mods(),
            final(self).pending_prefix() == old(self).pending_prefix(),
            final(self).irq_count_spec() == old(self).irq_count_spec(),
            final(self).dropped_spec() == old(self).dropped_spec(),
    {
        let r = self.led_request;
        self.led_request = None;
        r
    }
}

/// Whether a keyboard is usable: the i8042 came up.
pub fn is_available(ctl: &I8042) -> (r: bool)
    ensures
        r == ctl.present_spec(),
{
    is_present(ctl)
}

/// What the IRQ handler does with the byte it read: counts the interrupt
/// and queues the byte (dropped and counted if the ring is full). Never
/// decodes.
pub fn push_scancode(kb: &mut Keyboard, byte: u8)
    requires
        old(kb).wf(),
    ensures
        final(kb).wf(),
        final(kb).irq_count_spec() == counter_inc(old(kb).irq_count_spec()),
        final(kb).mods() == old(kb).mods(),
        final(kb).pending_prefix() == old(kb).pending_prefix(),
        final(kb).led_request_spec() == old(kb).led_request_spec(),
        old(kb).pending_bytes().len() + 1 < RING_CAPACITY ==> final(kb).pending_bytes() == old(kb).pending_bytes().push(byte)
            && final(kb).dropped_spec() == old(kb).dropped_spec(),
        old(kb).pending_bytes().len() + 1 >= RING_CAPACITY ==> final(kb).pending_bytes() == old(kb).pending_bytes()
            && final(kb).dropped_spec() == counter_inc(old(kb).dropped_spec()),
{
    kb.irq_count = kb.irq_count.wrapping_add(1);
    kb.ring.push(byte);
}

/// How many keyboard IRQs have fired (wrapping).
pub fn irq_count(kb: &Keyboard) -> (r: u64)
    ensures
        r == kb.irq_count_spec(),
{
    kb.irq_count
}

/// How many raw bytes were dropped because the ring was full.
pub fn dropped_count(kb: &Keyboard) -> (r: u64)
    ensures
        r == kb.dropped_spec(),
{
    kb.ring.dropped()
}

/// Decodes and returns the next key event, draining queued bytes until
/// one completes an event, or `None` once the queue runs dry. A Caps Lock
/// press leaves an LED request behind.
pub fn poll_event(kb: &mut Keyboard) -> (r: Option<KeyEvent>)
    requires
        old(kb).wf(),
    ensures
        final(kb).wf(),
        ({
            let res = poll_spec(old(kb).mods(), old(kb).pending_prefix(), old(kb).led_request_spec(), old(kb).pending_bytes());
            &&& final(kb).pending_bytes() == old(kb).pending_bytes().skip(res.0 as int)
            &&& final(kb).mods() == res.1
            &&& final(kb).pending_prefix() == res.2
            &&& final(kb).led_request_spec() == res.3
            &&& r == res.4
        }),
        final(kb).irq_count_spec() == old(kb).irq_count_spec(),
        final(kb).dropped_spec() == old(kb).dropped_spec(),
{
    let ghost s0 = kb.ring@;
    let ghost goal = poll_spec(kb.decoder.mods(), kb.decoder.pending(), kb.led_request, s0);
    loop
        invariant
            kb.wf(),
            kb.irq_count_spec() == old(kb).irq_count_spec(),
            kb.dropped_spec() == old(kb).dropped_spec(),
            kb.led_request == old(kb).led_request_spec(),
            goal == poll_spec(old(kb).mods(), old(kb).pending_prefix(), old(kb).led_request_spec(), s0),
            s0 == old(kb).pending_bytes(),
            kb.ring@.len() <= s0.len(),
            kb.ring@ == s0.skip(s0.len() - kb.ring@.len()),
            ({
                let res = poll_spec(kb.decoder.mods(), kb.decoder.pending(), kb.led_request, kb.ring@);
                &&& res.0 + (s0.len() - kb.ring@.len()) == goal.0
                &&& res.1 == goal.1
                &&& res.2 == goal.2
                &&& res.3 == goal.3
                &&& res.4 == goal.4
            }),
        decreases kb.ring@.len(),
    {
        let ghost before = kb.ring@;
        let byte = match kb.ring.pop() {
            Some(b) => b,
            None => {
                proof {
                    assert(kb.ring@.len() == 0);
                }
                return None;
            },
        };
        proof {
            assert(kb.ring@ =~= before.drop_first());
            assert(kb.ring@ =~= s0.skip(s0.len() - kb.ring@.len()));
        }
        let decoded = kb.decoder.feed(byte);
        if let Some(event) = decoded {
            if event.key == Key::CapsLock && event.pressed {
                kb.led_request = Some(event.mods.caps_lock);
            }
            return Some(event);
        }
    }
}

/// Decodes queued bytes until an event types a character and returns it
/// (break events and keys without a character are skipped, Caps Lock
/// presses leave an LED request), or `None` once the queue runs dry, in
/// which case the caller parks until the IRQ handler queues more bytes and
/// calls again.
pub fn read_char_blocking(kb: &mut Keyboard) -> (r: Option<char>)
    requires
        old(kb).wf(),
    ensures
        final(kb).wf(),
        ({
            let res = read_spec(old(kb).mods(), old(kb).pending_prefix(), old(kb).led_request_spec(), old(kb).pending_bytes());
            &&& final(kb).pending_bytes() == old(kb).pending_bytes().skip(res.0 as int)
            &&& final(kb).mods() == res.1
            &&& final(kb).pending_prefix() == res.2
            &&& final(kb).led_request_spec() == res.3
            &&& r == res.4
        }),
        final(kb).irq_count_spec() == old(kb).irq_count_spec(),
        final(kb).dropped_spec() == old(kb).dropped_spec(),
{
    let ghost s0 = kb.ring@;
    let ghost goal = read_spec(kb.decoder.mods(), kb.decoder.pending(), kb.led_request, s0);
    loop
        invariant
            kb.wf(),
            kb.irq_count_spec() == old(kb).irq_count_spec(),
            kb.dropped_spec() == old(kb).dropped_spec(),
            goal == read_spec(old(kb).mods(), old(kb).pending_prefix(), old(kb).led_request_spec(), s0),
            s0 == old(kb).pending_bytes(),
            kb.ring@.len() <= s0.len(),
            kb.ring@ == s0.skip(s0.len() - kb.ring@.len()),
            ({
                let res = read_spec(kb.decoder.mods(), kb.decoder.pending(), kb.led_request, kb.ring@);
                &&& res.0 + (s0.len() - kb.ring@.len()) == goal.0
                &&& res.1 == goal.1
                &&& res.2 == goal.2
                &&& res.3 == goal.3
                &&& res.4 == goal.4
            }),
        decreases kb.ring@.len(),
    {
        let ghost before = kb.ring@;
        let byte = match kb.ring.pop() {
            Some(b) => b,
            None => {
                proof {
                    assert(kb.ring@.len() == 0);
                }
                return None;
            },
        };
        proof {
            assert(kb.ring@ =~= before.drop_first());
            assert(kb.ring@ =~= s0.skip(s0.len() - kb.ring@.len()));
        }
        let decoded = kb.decoder.feed(byte);
        if let Some(event) = decoded {
            if event.key == Key::CapsLock && event.pressed {
                kb.led_request = Some(event.mods.caps_lock);
            }
            if let Some(ch) = event.to_char() {
                return Some(ch);
            }
        }
    }
}

/// The terminal bytes for `event`: nothing for a release, 0x01..0x1A for
/// Ctrl+A..Ctrl+Z, ESC [ A/B/C/D/H/F for Up/Down/Right/Left/Home/End,
/// ESC [ 3 ~ for Delete, 0x7F for Backspace, else the typed character (if
/// any).
pub fn key_event_to_bytes(event: &KeyEvent) -> (r: Vec<u8>)
    ensures
        r@ == event_bytes(*event),
{
    if !event.pressed {
        return Vec::new();
    }
    if event.mods.ctrl {
        let ctrl_char: Option<u8> = match event.key {
            Key::A => Some(0x01), Key::B => Some(0x02), Key::C => Some(0x03), Key::D => Some(0x04),
            Key::E => Some(0x05), Key::F => Some(0x06), Key::G => Some(0x07), Key::H => Some(0x08),
            Key::I => Some(0x09), Key::J => Some(0x0A), Key::K => Some(0x0B), Key::L => Some(0x0C),
            Key::M => Some(0x0D), Key::N => Some(0x0E), Key::O => Some(0x0F), Key::P => Some(0x10),
            Key::Q => Some(0x11), Key::R => Some(0x12), Key::S => Some(0x13), Key::T => Some(0x14),
            Key::U => Some(0x15), Key::V => Some(0x16), Key::W => Some(0x17), Key::X => Some(0x18),
            Key::Y => Some(0x19), Key::Z => Some(0x1A),
            _ => None,
        };
        if let Some(byte) = ctrl_char {
            return vec![byte];
        }
    }
    match event.key {
        Key::Up => vec![0x1B, 0x5B, 0x41],
        Key::Down => vec![0x1B, 0x5B, 0x42],
        Key::Right => vec![0x1B, 0x5B, 0x43],
        Key::Left => vec![0x1B, 0x5B, 0x44],
        Key::Home => vec![0x1B, 0x5B, 0x48],
        Key::End => vec![0x1B, 0x5B, 0x46],
        Key::Delete => vec![0x1B, 0x5B, 0x33, 0x7E],
        Key::Backspace => vec![0x7F],
        _ => {
            if let Some(ch) = event.to_char() {
                vec![ch as u8]
            } else {
                Vec::new()
            }
        },
    }
}

} // verus!
