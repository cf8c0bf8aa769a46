//! The 16550 serial port: its initialisation sequence, text framing
//! (`\n` goes out as `\r\n`), and the transmitter-ready test. The port
//! accesses themselves are done outside this library.
use vstd::prelude::*;

verus! {

/// The first serial port's I/O base.
pub const COM1: u16 = 0x3f8;
/// Line-status bit: the transmit holding register is empty.
pub const LSR_THR_EMPTY: u8 = 0x20;
/// How many line-status reads the self test waits for the transmitter.
pub const SELF_TEST_ATTEMPTS: usize = 10_000;

/// A 16550 UART at I/O base `base`.
#[derive(Clone, Copy, Debug, PartialEq, Eq, Structural)]
pub struct SerialPort {
    pub base: u16,
}

impl SerialPort {
    pub fn new(base: u16) -> (r: Self)
        ensures
            r.base == base,
    {
        SerialPort { base }
    }
}

/// The port writes that bring the UART up at 38400 baud, 8N1, FIFOs on,
/// interrupts off, in order: (port, value).
pub fn init(port: &SerialPort) -> (r: Vec<(u16, u8)>)
    requires
        port.base + 5 <= u16::MAX,
    ensures
        r@ == seq![((port.base + 1) as u16, 0x00u8), ((port.base + 3) as u16, 0x80u8), (port.base, 0x03u8),
            ((port.base + 1) as u16, 0x00u8), ((port.base + 3) as u16, 0x03u8), ((port.base + 2) as u16, 0xc7u8),
            ((port.base + 4) as u16, 0x0bu8)],
{
    let b = port.base;
    let mut v: Vec<(u16, u8)> = Vec::new();
    v.push((b + 1, 0x00));
    v.push((b + 3, 0x80));
    v.push((b, 0x03));
    v.push((b + 1, 0x00));
    v.push((b + 3, 0x03));
    v.push((b + 2, 0xc7));
    v.push((b + 4, 0x0b));
    proof {
        assert(v@ =~= seq![((b + 1) as u16, 0x00u8), ((b + 3) as u16, 0x80u8), (b, 0x03u8),
            ((b + 1) as u16, 0x00u8), ((b + 3) as u16, 0x03u8), ((b + 2) as u16, 0xc7u8), ((b + 4) as u16, 0x0bu8)]);
    }
    v
}

/// The line-status port.
pub fn line_status_port(port: &SerialPort) -> (r: u16)
    requires
        port.base + 5 <= u16::MAX,
    ensures
        r == port.base + 5,
{
    port.base + 5
}

/// Whether a line-status value says the transmitter can take a byte.
pub fn transmitter_ready(lsr: u8) -> (r: bool)
    ensures
        r == (lsr & LSR_THR_EMPTY != 0),
{
    lsr & LSR_THR_EMPTY != 0
}

/// Text as sent: each `\n` preceded by `\r`.
pub open spec fn framed(s: Seq<u8>) -> Seq<u8>
    decreases s.len(),
{
    if s.len() == 0 {
        Seq::empty()
    } else {
        framed(s.drop_last()) + (if s.last() == 0x0a { seq![0x0du8, 0x0au8] } else { seq![s.last()] })
    }
}

/// The bytes sent for `text`.
pub fn frame_text(text: &[u8]) -> (r: Vec<u8>)
    ensures
        r@ == framed(text@),
{
    let mut out: Vec<u8> = Vec::new();
    let mut i: usize = 0;
    while i < text.len()
        invariant
            i <= text@.len(),
            out@ == framed(text@.take(i as int)),
        decreases text.len() - i,
    {
        proof {
            assert(text@.take(i + 1).drop_last() =~= text@.take(i as int));
        }
        if text[i] == 0x0a {
            out.push(0x0d);
        }
        out.push(text[i]);
        proof {
            assert(out@ =~= framed(text@.take(i + 1)));
        }
        i = i + 1;
    }
    proof {
        assert(text@.take(i as int) =~= text@);
    }
    out
}

/// After a probe byte was written, the self test passes when one of the
/// first 10000 line-status reads `statuses` says the transmitter is idle
/// again.
pub fn self_test(statuses: &[u8]) -> (r: bool)
    ensures
        r == exists|i: int| 0 <= i < statuses@.len() && i < SELF_TEST_ATTEMPTS && #[trigger] statuses@[i] & LSR_THR_EMPTY != 0,
{
    let mut i: usize = 0;
    while i < statuses.len() && i < SELF_TEST_ATTEMPTS
        invariant
            i <= statuses@.len(),
            i <= SELF_TEST_ATTEMPTS,
            forall|j: int| 0 <= j < i ==> #[trigger] statuses@[j] & LSR_THR_EMPTY == 0,
        decreases statuses.len() - i,
    {
        if statuses[i] & LSR_THR_EMPTY != 0 {
            return true;
        }
        i = i + 1;
    }
    false
}

} // verus!
