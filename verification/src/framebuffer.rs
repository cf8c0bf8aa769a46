//! The linear framebuffer: packing colours into pixels and writing and
//! reading pixels with bounds checks. The framebuffer's memory is modelled
//! as the byte vector the pixels live in.
use vstd::prelude::*;

verus! {

/// A framebuffer's geometry and pixel format.
#[derive(Clone, Copy, Debug, PartialEq, Eq, Structural)]
pub struct FbInfo {
    pub width: u64,
    pub height: u64,
    pub pitch: u64,
    pub bpp: u16,
    pub red_mask_shift: u8,
    pub green_mask_shift: u8,
    pub blue_mask_shift: u8,
}

/// A framebuffer: its geometry and its bytes.
pub struct FrameBuffer {
    pub info: FbInfo,
    pub bytes: Vec<u8>,
}

impl FrameBuffer {
    /// Every pixel lies within the bytes: rows of `pitch` bytes hold
    /// `width` pixels of `bpp / 8` (at most 4) bytes each, and the colour
    /// shifts stay within 32 bits.
    pub open spec fn wf(&self) -> bool {
        let i = self.info;
        &&& i.bpp / 8 <= 4
        &&& i.width * (i.bpp / 8) <= i.pitch
        &&& i.height * i.pitch <= self.bytes@.len()
        &&& i.red_mask_shift < 32
        &&& i.green_mask_shift < 32
        &&& i.blue_mask_shift < 32
    }
}

/// The colour `(r, g, b)` as a pixel value.
pub open spec fn pack_spec(i: FbInfo, r: u8, g: u8, b: u8) -> u32 {
    ((r as u32) << i.red_mask_shift) | ((g as u32) << i.green_mask_shift) | ((b as u32) << i.blue_mask_shift)
}

/// Packs a colour into a pixel value.
pub fn pack(fb: &FrameBuffer, r: u8, g: u8, b: u8) -> (v: u32)
    requires
        fb.wf(),
    ensures
        v == pack_spec(fb.info, r, g, b),
{
    ((r as u32) << fb.info.red_mask_shift) | ((g as u32) << fb.info.green_mask_shift) | ((b as u32) << fb.info.blue_mask_shift)
}

/// Where pixel `(x, y)` starts, if it lies on the screen.
pub open spec fn offset_spec(i: FbInfo, x: u64, y: u64) -> Option<int> {
    if x >= i.width || y >= i.height { None } else { Some(y * i.pitch + x * (i.bpp / 8)) }
}

proof fn lemma_offset_bound(fb: &FrameBuffer, x: u64, y: u64)
    requires
        fb.wf(),
        x < fb.info.width,
        y < fb.info.height,
    ensures
        y * fb.info.pitch + x * (fb.info.bpp / 8) + fb.info.bpp / 8 <= fb.bytes.len(),
{
    let i = fb.info;
    let b: int = (i.bpp / 8) as int;
    let w: int = i.width as int;
    let h: int = i.height as int;
    let p: int = i.pitch as int;
    let xx: int = x as int;
    let yy: int = y as int;
    assert(xx * b + b <= w * b) by (nonlinear_arith)
        requires xx < w, b >= 0;
    assert(yy * p + p <= h * p) by (nonlinear_arith)
        requires yy < h, p >= 0;
    assert(w * b <= p);
    assert(h * p <= fb.bytes@.len());
}

/// The byte offset of pixel `(x, y)`; `None` off the screen.
pub fn pixel_offset(fb: &FrameBuffer, x: u64, y: u64) -> (r: Option<usize>)
    requires
        fb.wf(),
    ensures
        match offset_spec(fb.info, x, y) {
            Some(o) => r == Some(o as usize),
            None => r is None,
        },
{
    if x >= fb.info.width || y >= fb.info.height {
        return None;
    }
    proof {
        lemma_offset_bound(fb, x, y);
    }
    let bpp_bytes = (fb.info.bpp / 8) as u64;
    Some((y * fb.info.pitch + x * bpp_bytes) as usize)
}

/// The bytes of pixel value `color`, little-endian, as many as a pixel
/// has.
pub open spec fn pixel_byte(color: u32, k: int) -> u8 {
    ((color >> (8 * k) as u32) & 0xff) as u8
}

/// Writes pixel `(x, y)`; a pixel off the screen is ignored.
pub fn put_pixel(fb: &mut FrameBuffer, x: u64, y: u64, color: u32)
    requires
        old(fb).wf(),
    ensures
        final(fb).wf(),
        final(fb).info == old(fb).info,
        final(fb).bytes@.len() == old(fb).bytes@.len(),
        match offset_spec(old(fb).info, x, y) {
            None => final(fb).bytes@ == old(fb).bytes@,
            Some(o) => forall|k: int| 0 <= k < final(fb).bytes@.len() ==> #[trigger] final(fb).bytes@[k] == (
                if o <= k < o + old(fb).info.bpp / 8 { pixel_byte(color, k - o) } else { old(fb).bytes@[k] }),
        },
{
    let offset = match pixel_offset(fb, x, y) {
        Some(o) => o,
        None => return,
    };
    proof {
        lemma_offset_bound(fb, x, y);
    }
    let n = (fb.info.bpp / 8) as usize;
    let ghost b0 = fb.bytes@;
    let mut i: usize = 0;
    while i < n
        invariant
            fb.wf(),
            fb.info == old(fb).info,
            n == fb.info.bpp / 8,
            n <= 4,
            i <= n,
            offset + n <= fb.bytes.len(),
            fb.bytes@.len() == b0.len(),
            forall|k: int| 0 <= k < fb.bytes@.len() ==> #[trigger] fb.bytes@[k] == (
                if offset <= k < offset + i { pixel_byte(color, k - offset) } else { b0[k] }),
        decreases n - i,
    {
        let v = ((color >> (8 * i as u32)) & 0xff) as u8;
        fb.bytes.set(offset + i, v);
        i = i + 1;
    }
}

/// Reads pixel `(x, y)` back (at most four bytes, little-endian); `None`
/// off the screen.
pub fn read_pixel(fb: &FrameBuffer, x: u64, y: u64) -> (r: Option<u32>)
    requires
        fb.wf(),
    ensures
        match offset_spec(fb.info, x, y) {
            None => r is None,
            Some(o) => r == Some(le_bytes(fb.bytes@, o, (fb.info.bpp / 8) as int)),
        },
{
    let offset = match pixel_offset(fb, x, y) {
        Some(o) => o,
        None => return None,
    };
    proof {
        lemma_offset_bound(fb, x, y);
    }
    let n = (fb.info.bpp / 8) as usize;
    let mut value: u32 = 0;
    let mut i: usize = 0;
    while i < n
        invariant
            fb.wf(),
            n == fb.info.bpp / 8,
            n <= 4,
            i <= n,
            offset + n <= fb.bytes.len(),
            value == le_bytes(fb.bytes@, offset as int, i as int),
        decreases n - i,
    {
        value = value | ((fb.bytes[offset + i] as u32) << (8 * i as u32));
        i = i + 1;
    }
    Some(value)
}

/// The `n` bytes at `o`, little-endian, or-ed together.
pub open spec fn le_bytes(s: Seq<u8>, o: int, n: int) -> u32
    decreases n,
{
    if n <= 0 { 0 } else { le_bytes(s, o, n - 1) | ((s[o + n - 1] as u32) << (8 * (n - 1)) as u32) }
}

/// Writes a probe colour at the top-left pixel, then pixels past the
/// right and bottom edges (which must be ignored), and checks that the
/// probe reads back. `false` for an empty screen.
pub fn bounds_self_test(fb: &mut FrameBuffer) -> (r: bool)
    requires
        old(fb).wf(),
        old(fb).info.bpp == 32,
    ensures
        final(fb).wf(),
        r == (old(fb).info.width > 0 && old(fb).info.height > 0),
{
    if fb.info.width == 0 || fb.info.height == 0 {
        return false;
    }
    let probe = pack(fb, 0xab, 0xcd, 0xef);
    proof {
        lemma_offset_bound(fb, 0, 0);
    }
    put_pixel(fb, 0, 0, probe);
    let ghost after = fb.bytes@;
    put_pixel(fb, fb.info.width.saturating_add(10_000), fb.info.height.saturating_add(10_000), 0x00ff_ffff);
    put_pixel(fb, fb.info.width, fb.info.height, 0x00ff_ffff);
    put_pixel(fb, u64::MAX, 0, 0x00ff_ffff);
    let back = read_pixel(fb, 0, 0);
    proof {
        assert(fb.bytes@ == after);
        lemma_roundtrip32(after, probe);
    }
    match back {
        Some(v) => v == probe,
        None => false,
    }
}

/// Four pixel bytes read back little-endian give the pixel value.
proof fn lemma_roundtrip32(s: Seq<u8>, color: u32)
    requires
        s.len() >= 4,
        forall|k: int| 0 <= k < 4 ==> #[trigger] s[k] == pixel_byte(color, k),
    ensures
        le_bytes(s, 0, 4) == color,
{
    reveal_with_fuel(le_bytes, 5);
    let b0 = s[0];
    let b1 = s[1];
    let b2 = s[2];
    let b3 = s[3];
    assert(le_bytes(s, 0, 4) == (((0u32 | ((b0 as u32) << 0u32)) | ((b1 as u32) << 8u32)) | ((b2 as u32) << 16u32)) | ((b3 as u32) << 24u32));
    assert(b0 == ((color >> 0u32) & 0xff) as u8);
    assert(b1 == ((color >> 8u32) & 0xff) as u8);
    assert(b2 == ((color >> 16u32) & 0xff) as u8);
    assert(b3 == ((color >> 24u32) & 0xff) as u8);
    assert((((0u32 | ((b0 as u32) << 0u32)) | ((b1 as u32) << 8u32)) | ((b2 as u32) << 16u32)) | ((b3 as u32) << 24u32) == color) by (bit_vector)
        requires
            b0 == ((color >> 0u32) & 0xff) as u8,
            b1 == ((color >> 8u32) & 0xff) as u8,
            b2 == ((color >> 16u32) & 0xff) as u8,
            b3 == ((color >> 24u32) & 0xff) as u8;
}

/// What a 32-bit pixel write leaves is what a read gives back: the four
/// bytes `put_pixel` writes at offset `o` read back, little-endian, as
/// the colour written.
pub proof fn law_put_then_read(s: Seq<u8>, o: int, color: u32)
    requires
        0 <= o,
        o + 4 <= s.len(),
        forall|k: int| o <= k < o + 4 ==> #[trigger] s[k] == pixel_byte(color, k - o),
    ensures
        le_bytes(s, o, 4) == color,
{
    reveal_with_fuel(le_bytes, 5);
    let b0 = s[o];
    let b1 = s[o + 1];
    let b2 = s[o + 2];
    let b3 = s[o + 3];
    assert(b0 == pixel_byte(color, 0));
    assert(b1 == pixel_byte(color, 1));
    assert(b2 == pixel_byte(color, 2));
    assert(b3 == pixel_byte(color, 3));
    assert(b0 == ((color >> 0u32) & 0xff) as u8);
    assert(b1 == ((color >> 8u32) & 0xff) as u8);
    assert(b2 == ((color >> 16u32) & 0xff) as u8);
    assert(b3 == ((color >> 24u32) & 0xff) as u8);
    assert((((0u32 | ((b0 as u32) << 0u32)) | ((b1 as u32) << 8u32)) | ((b2 as u32) << 16u32)) | ((b3 as u32) << 24u32) == color) by (bit_vector)
        requires
            b0 == ((color >> 0u32) & 0xff) as u8,
            b1 == ((color >> 8u32) & 0xff) as u8,
            b2 == ((color >> 16u32) & 0xff) as u8,
            b3 == ((color >> 24u32) & 0xff) as u8;
}

} // verus!
