use otteros_kernel::framebuffer::{bounds_self_test, pack, pixel_offset, put_pixel, read_pixel, FbInfo, FrameBuffer};
use otteros_kernel::random::{fold_delta, stats, JitterRing};
use otteros_kernel::serial::{frame_text, init as serial_init, line_status_port, self_test, transmitter_ready, SerialPort, COM1};

fn fb(width: u64, height: u64) -> FrameBuffer {
    let info = FbInfo { width, height, pitch: width * 4, bpp: 32, red_mask_shift: 16, green_mask_shift: 8, blue_mask_shift: 0 };
    FrameBuffer { info, bytes: vec![0; (width * height * 4) as usize] }
}

#[test]
fn framebuffer_pixels() {
    let mut f = fb(4, 3);
    assert_eq!(pack(&f, 0xab, 0xcd, 0xef), 0x00ab_cdef);
    assert_eq!(pixel_offset(&f, 1, 2), Some(2 * 16 + 4));
    assert_eq!(pixel_offset(&f, 4, 0), None);
    assert_eq!(pixel_offset(&f, 0, 3), None);
    put_pixel(&mut f, 1, 1, 0x1122_3344);
    assert_eq!(read_pixel(&f, 1, 1), Some(0x1122_3344));
    assert_eq!(f.bytes[20..24], [0x44, 0x33, 0x22, 0x11]);
    let before = f.bytes.clone();
    put_pixel(&mut f, 9, 9, 0xffff_ffff);
    assert_eq!(f.bytes, before);
    assert_eq!(read_pixel(&f, 9, 9), None);
}

#[test]
fn framebuffer_self_test() {
    let mut f = fb(4, 3);
    assert!(bounds_self_test(&mut f));
    let mut empty = fb(0, 0);
    assert!(!bounds_self_test(&mut empty));
}

#[test]
fn jitter_fold_and_ring() {
    assert_eq!(fold_delta(0), 0);
    assert_eq!(fold_delta(0x0102_0304_0506_0708), 0x01 ^ 0x02 ^ 0x03 ^ 0x04 ^ 0x05 ^ 0x06 ^ 0x07 ^ 0x08);
    let mut r = JitterRing::new();
    assert!(r.drain().is_empty());
    r.add_jitter_sample(7);
    r.add_jitter_sample(9);
    assert_eq!(r.drain(), vec![7, 9]);
    assert!(r.drain().is_empty());
    for i in 0..300u32 {
        r.add_jitter_sample(i as u8);
    }
    let d = r.drain();
    assert_eq!(d.len(), 300 % 256);
}

#[test]
fn random_stats() {
    let s = stats(true, false, 64, 0, 10, None);
    assert_eq!(s.healthy_sources, 0);
    assert_eq!(s.reseeds, 0);
    let s = stats(true, true, 1, 2, 3, Some((2, 5)));
    assert_eq!(s.healthy_sources, 2);
    assert_eq!(s.reseeds, 5);
    assert_eq!(s.jitter_samples, 3);
}

#[test]
fn serial_protocol() {
    let p = SerialPort::new(COM1);
    let seq = serial_init(&p);
    assert_eq!(seq[0], (0x3f9, 0x00));
    assert_eq!(seq[1], (0x3fb, 0x80));
    assert_eq!(seq[6], (0x3fc, 0x0b));
    assert_eq!(line_status_port(&p), 0x3fd);
    assert!(transmitter_ready(0x60));
    assert!(!transmitter_ready(0x01));
    assert_eq!(frame_text(b"a\nb"), b"a\r\nb".to_vec());
    assert!(self_test(&[0, 0, 0x20]));
    assert!(!self_test(&[0, 0]));
}
