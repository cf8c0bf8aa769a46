//! The virtio block device: finding it, and planning its requests. A read
//! or write of whole sectors is split into requests of at most 256 KiB,
//! each made of a 16-byte request header, the data, and a one-byte status
//! the device writes, all in one bounce buffer. Moving the data and
//! waiting on the queue are done by the caller.
use vstd::prelude::*;
use crate::drivers::pci::{PciRegistry, PciDevice, find_device, first_with};

verus! {

/// The PCI vendor id of virtio devices.
pub const VIRTIO_VENDOR: u16 = 0x1af4;
/// The PCI device id of a (modern) virtio block device.
pub const VIRTIO_BLK_DEVICE: u16 = 0x1042;
/// The feature bit of a device that can flush its write cache.
pub const VIRTIO_BLK_F_FLUSH: u64 = 0x200;
/// Request types: read, write, flush.
pub const BLOCK_T_IN: u32 = 0;
pub const BLOCK_T_OUT: u32 = 1;
pub const BLOCK_T_FLUSH: u32 = 4;
/// The status byte of a request that succeeded.
pub const BLOCK_S_OK: u8 = 0;
/// Sectors moved by one request at most (256 KiB).
pub const MAX_SECTORS_PER_REQUEST: u64 = 512;
/// How long to wait for a request, in milliseconds.
pub const REQUEST_TIMEOUT_MS: u64 = 5000;

/// Why a block transfer failed.
#[derive(Debug, Clone, Copy, PartialEq, Eq, Structural)]
pub enum BlkError {
    /// The buffer is empty or not whole sectors.
    InvalidLength,
    /// The sectors lie (partly) past the end of the device.
    OutOfRange,
    /// The device reported this status.
    Io(u8),
    /// The device did not answer in time.
    Timeout,
}

/// The block device as first probed: its name, size in sectors, and
/// sector size.
pub struct VirtioBlkDriver {
    name: String,
    capacity: u64,
    sector_size: u32,
}

impl VirtioBlkDriver {
    pub closed spec fn capacity_spec(&self) -> u64 {
        self.capacity
    }

    pub closed spec fn sector_size_spec(&self) -> u32 {
        self.sector_size
    }

    pub closed spec fn name_spec(&self) -> Seq<char> {
        self.name@
    }

    /// Probes for the block device among the PCI functions found: `None`
    /// if there is none; else the device `vda` of 131072 sectors of 512
    /// bytes.
    pub fn init(pci: &PciRegistry) -> (r: Option<VirtioBlkDriver>)
        ensures
            r is None <==> forall|i: int| 0 <= i < pci.devices@.len() ==>
                !((#[trigger] pci.devices@[i]).vendor_id == VIRTIO_VENDOR && pci.devices@[i].device_id == VIRTIO_BLK_DEVICE),
            r matches Some(d) ==> d.capacity_spec() == 131072 && d.sector_size_spec() == 512 && d.name_spec() == "vda"@,
    {
        match find_device(pci, VIRTIO_VENDOR, VIRTIO_BLK_DEVICE) {
            None => None,
            Some(_) => Some(VirtioBlkDriver { name: String::from_str("vda"), capacity: 131072, sector_size: 512 }),
        }
    }

    /// The size in sectors.
    pub fn capacity(&self) -> (r: u64)
        ensures
            r == self.capacity_spec(),
    {
        self.capacity
    }

    /// The sector size in bytes.
    pub fn sector_size(&self) -> (r: u32)
        ensures
            r == self.sector_size_spec(),
    {
        self.sector_size
    }

    /// The device name.
    pub fn name(&self) -> (r: &str)
        ensures
            r@ == self.name_spec(),
    {
        self.name.as_str()
    }
}

/// The 16-byte request header: the type and a reserved word (both
/// little-endian `u32`), then the first sector (little-endian `u64`).
pub open spec fn header_spec(req_type: u32, sector: u64) -> Seq<u8> {
    Seq::new(16, |i: int| if i < 4 {
        ((req_type as int / pow256(i)) % 256) as u8
    } else if i < 8 {
        0u8
    } else {
        ((sector as int / pow256(i - 8)) % 256) as u8
    })
}

/// 256 to the `i`.
pub open spec fn pow256(i: int) -> int
    decreases i,
{
    if i <= 0 { 1 } else { 256 * pow256(i - 1) }
}

proof fn lemma_pow256_pos(i: int)
    ensures
        pow256(i) > 0,
    decreases i,
{
    if i > 0 {
        lemma_pow256_pos(i - 1);
    }
}

/// Encodes a request header.
pub fn request_header(req_type: u32, sector: u64) -> (r: Vec<u8>)
    ensures
        r@ == header_spec(req_type, sector),
{
    let mut out: Vec<u8> = Vec::new();
    let mut i: usize = 0;
    let mut t: u32 = req_type;
    proof {
        assert(pow256(0) == 1);
        assert(req_type as int / 1 == req_type);
    }
    while i < 4
        invariant
            i <= 4,
            out@.len() == i,
            t as int == req_type as int / pow256(i as int),
            forall|k: int| 0 <= k < i ==> out@[k] == header_spec(req_type, sector)[k],
        decreases 4 - i,
    {
        out.push((t % 256) as u8);
        proof {
            lemma_pow256_pos(i as int);
            vstd::arithmetic::div_mod::lemma_div_denominator(req_type as int, pow256(i as int), 256);
            assert(pow256(i + 1) == pow256(i as int) * 256);
        }
        t = t / 256;
        i = i + 1;
    }
    while i < 8
        invariant
            4 <= i <= 8,
            out@.len() == i,
            forall|k: int| 0 <= k < i ==> out@[k] == header_spec(req_type, sector)[k],
        decreases 8 - i,
    {
        out.push(0);
        i = i + 1;
    }
    let mut s: u64 = sector;
    proof {
        assert(pow256(0) == 1);
        assert(sector as int / 1 == sector);
    }
    while i < 16
        invariant
            8 <= i <= 16,
            out@.len() == i,
            s as int == sector as int / pow256(i - 8),
            forall|k: int| 0 <= k < i ==> out@[k] == header_spec(req_type, sector)[k],
        decreases 16 - i,
    {
        out.push((s % 256) as u8);
        proof {
            lemma_pow256_pos(i - 8);
            vstd::arithmetic::div_mod::lemma_div_denominator(sector as int, pow256(i - 8), 256);
            assert(pow256(i - 8 + 1) == pow256(i - 8) * 256);
        }
        s = s / 256;
        i = i + 1;
    }
    proof {
        assert(out@ =~= header_spec(req_type, sector));
    }
    out
}

/// A read or write of sectors in progress: it started at sector `lba` for
/// `len` bytes, and the first `done` bytes are through.
#[derive(Clone, Copy, Debug, PartialEq, Eq, Structural)]
pub struct BlkTransfer {
    pub write: bool,
    pub lba: u64,
    pub len: usize,
    pub done: usize,
}

impl BlkTransfer {
    /// A transfer's invariant: whole sectors, all of them within range.
    pub open spec fn wf(&self) -> bool {
        &&& self.len > 0
        &&& self.len % 512 == 0
        &&& self.done % 512 == 0
        &&& self.done <= self.len
        &&& self.lba + self.len / 512 <= u64::MAX
    }

    /// The next sector to move.
    pub open spec fn sector(&self) -> int {
        self.lba + self.done / 512
    }
}

/// Starts a transfer of `len` bytes at sector `lba` on a device of
/// `capacity` sectors: `InvalidLength` unless `len` is a non-zero multiple
/// of 512; `OutOfRange` if the sectors run past the end.
pub fn begin_transfer(capacity: u64, lba: u64, len: usize, write: bool) -> (r: Result<BlkTransfer, BlkError>)
    ensures
        (len == 0 || len % 512 != 0) ==> r == Err::<BlkTransfer, BlkError>(BlkError::InvalidLength),
        !(len == 0 || len % 512 != 0) && lba + len / 512 > capacity ==> r == Err::<BlkTransfer, BlkError>(BlkError::OutOfRange),
        !(len == 0 || len % 512 != 0) && lba + len / 512 <= capacity ==> r == Ok::<BlkTransfer, BlkError>(BlkTransfer { write, lba, len, done: 0 }),
        r matches Ok(t) ==> t.wf(),
{
    if len == 0 || len % 512 != 0 {
        return Err(BlkError::InvalidLength);
    }
    let num_sectors = (len / 512) as u64;
    match lba.checked_add(num_sectors) {
        None => Err(BlkError::OutOfRange),
        Some(end) => if end > capacity {
            Err(BlkError::OutOfRange)
        } else {
            Ok(BlkTransfer { write, lba, len, done: 0 })
        },
    }
}

/// One request of a transfer: its first sector, the offset of its data in
/// the caller's buffer, its length, its header, the three buffers to chain
/// (header, data, status) at the bounce buffer's physical address, and the
/// token the request is queued with.
pub struct BlkChunk {
    pub sector: u64,
    pub offset: usize,
    pub len: usize,
    pub header: Vec<u8>,
    pub buffers: Vec<(u64, u32, bool)>,
    pub token: u64,
}

/// The length of the next request: the rest, at most 256 KiB.
pub open spec fn chunk_len(t: BlkTransfer) -> int {
    let left = (t.len - t.done) / 512;
    (if left < MAX_SECTORS_PER_REQUEST { left } else { MAX_SECTORS_PER_REQUEST as int }) * 512
}

/// Plans the next request of `t` with the bounce buffer at physical
/// address `bounce`; `None` once all of it is through.
pub fn next_chunk(t: &BlkTransfer, bounce: u64) -> (r: Option<BlkChunk>)
    requires
        t.wf(),
        bounce + 16 + 256 * 1024 + 1 <= u64::MAX,
    ensures
        t.done == t.len <==> r is None,
        r matches Some(c) ==> {
            let n = chunk_len(*t);
            &&& c.sector == t.sector()
            &&& c.offset == t.done
            &&& c.len == n
            &&& c.header@ == header_spec(if t.write { BLOCK_T_OUT } else { BLOCK_T_IN }, c.sector)
            &&& c.buffers@ == seq![(bounce, 16u32, false), ((bounce + 16) as u64, n as u32, !t.write),
                ((bounce + 16 + n) as u64, 1u32, true)]
            &&& c.token == ((c.sector as u64) << 16u64) | ((n / 512) as u64)
        },
{
    if t.done >= t.len {
        return None;
    }
    let left = ((t.len - t.done) / 512) as u64;
    let sectors = if left < MAX_SECTORS_PER_REQUEST { left } else { MAX_SECTORS_PER_REQUEST };
    let this = (sectors * 512) as usize;
    let sector = t.lba + (t.done / 512) as u64;
    let req_type = if t.write { BLOCK_T_OUT } else { BLOCK_T_IN };
    let header = request_header(req_type, sector);
    let mut buffers: Vec<(u64, u32, bool)> = Vec::new();
    buffers.push((bounce, 16, false));
    buffers.push((bounce + 16, this as u32, !t.write));
    buffers.push((bounce + 16 + this as u64, 1, true));
    proof {
        assert(buffers@ =~= seq![(bounce, 16u32, false), ((bounce + 16) as u64, this as u32, !t.write),
            ((bounce + 16 + this) as u64, 1u32, true)]);
    }
    Some(BlkChunk { sector, offset: t.done, len: this, header, buffers, token: (sector << 16u64) | sectors })
}

/// Records the device's status byte for the request `next_chunk` planned:
/// `Io(status)` unless it is `BLOCK_S_OK`; else the request's bytes are
/// through.
pub fn complete_chunk(t: &mut BlkTransfer, status: u8) -> (r: Result<(), BlkError>)
    requires
        old(t).wf(),
        old(t).done < old(t).len,
    ensures
        final(t).wf(),
        status != BLOCK_S_OK ==> r == Err::<(), BlkError>(BlkError::Io(status)) && *final(t) == *old(t),
        status == BLOCK_S_OK ==> r is Ok && *final(t) == (BlkTransfer { done: (old(t).done + chunk_len(*old(t))) as usize, ..*old(t) }),
{
    if status != BLOCK_S_OK {
        return Err(BlkError::Io(status));
    }
    let left = (t.len - t.done) / 512;
    let sectors = if left < 512 { left } else { 512 };
    t.done = t.done + sectors * 512;
    Ok(())
}

/// Whether a flush request is needed: only a device that announced a
/// write cache it can flush gets one.
pub fn flush_needed(features: u64) -> (r: bool)
    ensures
        r == (features & VIRTIO_BLK_F_FLUSH != 0),
{
    features & VIRTIO_BLK_F_FLUSH != 0
}

/// The moment a request queued at `now` (milliseconds) times out.
pub fn request_deadline(now: u64) -> (r: u64)
    requires
        now + REQUEST_TIMEOUT_MS <= u64::MAX,
    ensures
        r == now + REQUEST_TIMEOUT_MS,
{
    now + REQUEST_TIMEOUT_MS
}

/// A transfer always moves forward and never past its end: while bytes
/// are left, the next request is whole sectors, at least one, and fits in
/// what is left.
pub proof fn law_chunks_progress(t: BlkTransfer)
    requires
        t.wf(),
        t.done < t.len,
    ensures
        512 <= chunk_len(t) <= t.len - t.done,
        chunk_len(t) % 512 == 0,
        chunk_len(t) <= 256 * 1024,
{
    let left = (t.len - t.done) / 512;
    vstd::arithmetic::div_mod::lemma_sub_mod_noop(t.len as int, t.done as int, 512);
    assert((t.len - t.done) % 512 == 0);
    assert(left * 512 == t.len - t.done);
}

/// A disk's bytes after `data` was stored from byte `at` on.
pub open spec fn write_bytes(disk: Seq<u8>, at: int, data: Seq<u8>) -> Seq<u8> {
    Seq::new(disk.len(), |i: int| if at <= i < at + data.len() { data[i - at] } else { disk[i] })
}

/// The `n` bytes of a disk from byte `at` on.
pub open spec fn read_bytes(disk: Seq<u8>, at: int, n: int) -> Seq<u8> {
    disk.subrange(at, at + n)
}

/// Every request of a transfer lies where its bytes belong: its first
/// sector's byte is the transfer's first byte plus the request's offset
/// in the caller's buffer.
pub proof fn law_chunk_in_place(t: BlkTransfer)
    requires
        t.wf(),
    ensures
        t.sector() * 512 == t.lba * 512 + t.done,
{
}

/// Writing a transfer's requests one after another stores the caller's
/// buffer from the transfer's first sector on: after the request at
/// `t.done`, the disk holds the buffer's first `t.done + chunk_len(t)`
/// bytes there.
pub proof fn law_chunk_writes_extend(disk: Seq<u8>, t: BlkTransfer, buf: Seq<u8>)
    requires
        t.wf(),
        t.done < t.len,
        buf.len() == t.len,
        t.lba * 512 + t.len <= disk.len(),
    ensures
        write_bytes(write_bytes(disk, t.lba * 512, buf.take(t.done as int)), t.sector() * 512,
            buf.subrange(t.done as int, t.done + chunk_len(t)))
            == write_bytes(disk, t.lba * 512, buf.take(t.done + chunk_len(t))),
{
    law_chunks_progress(t);
    let a = write_bytes(write_bytes(disk, t.lba * 512, buf.take(t.done as int)), t.sector() * 512,
        buf.subrange(t.done as int, t.done + chunk_len(t)));
    let b = write_bytes(disk, t.lba * 512, buf.take(t.done + chunk_len(t)));
    assert(a =~= b);
}

/// Reading a transfer's requests one after another gives the disk's bytes
/// from the transfer's first sector on: the request at `t.done` reads the
/// part of them at that offset.
pub proof fn law_chunk_reads_in_place(disk: Seq<u8>, t: BlkTransfer)
    requires
        t.wf(),
        t.done < t.len,
        t.lba * 512 + t.len <= disk.len(),
    ensures
        read_bytes(disk, t.sector() * 512, chunk_len(t))
            == read_bytes(disk, t.lba * 512, t.len as int).subrange(t.done as int, t.done + chunk_len(t)),
{
    law_chunks_progress(t);
    assert(read_bytes(disk, t.sector() * 512, chunk_len(t))
        =~= read_bytes(disk, t.lba * 512, t.len as int).subrange(t.done as int, t.done + chunk_len(t)));
}

/// A read of the sectors a write stored gives back what was written.
pub proof fn law_read_after_write(disk: Seq<u8>, lba: int, data: Seq<u8>)
    requires
        0 <= lba,
        lba * 512 + data.len() <= disk.len(),
    ensures
        read_bytes(write_bytes(disk, lba * 512, data), lba * 512, data.len() as int) == data,
{
    assert(read_bytes(write_bytes(disk, lba * 512, data), lba * 512, data.len() as int) =~= data);
}

/// Transfer `t` once its next request went through (see `complete_chunk`).
pub open spec fn advanced(t: BlkTransfer) -> BlkTransfer {
    BlkTransfer { done: (t.done + chunk_len(t)) as usize, ..t }
}

/// What the rest of write transfer `t` leaves on `disk`, request after
/// request: each stores its part of `buf` at its sectors.
pub open spec fn write_rest(disk: Seq<u8>, t: BlkTransfer, buf: Seq<u8>) -> Seq<u8>
    decreases t.len - t.done,
{
    if !t.wf() || t.done >= t.len {
        disk
    } else {
        proof {
            law_chunks_progress(t);
        }
        write_rest(write_bytes(disk, t.sector() * 512, buf.subrange(t.done as int, t.done + chunk_len(t))), advanced(t), buf)
    }
}

/// What the rest of read transfer `t` reads from `disk`, request after
/// request, in the caller's buffer's order.
pub open spec fn read_rest(disk: Seq<u8>, t: BlkTransfer) -> Seq<u8>
    decreases t.len - t.done,
{
    if !t.wf() || t.done >= t.len {
        Seq::empty()
    } else {
        proof {
            law_chunks_progress(t);
        }
        read_bytes(disk, t.sector() * 512, chunk_len(t)) + read_rest(disk, advanced(t))
    }
}

/// A write transfer carried through to its end stores the whole buffer
/// from its first sector on (given the part already through is there).
pub proof fn law_write_transfer_stores(d0: Seq<u8>, t: BlkTransfer, buf: Seq<u8>)
    requires
        t.wf(),
        buf.len() == t.len,
        t.lba * 512 + t.len <= d0.len(),
    ensures
        write_rest(write_bytes(d0, t.lba * 512, buf.take(t.done as int)), t, buf) == write_bytes(d0, t.lba * 512, buf),
    decreases t.len - t.done,
{
    if t.done < t.len {
        law_chunks_progress(t);
        law_chunk_writes_extend(d0, t, buf);
        law_write_transfer_stores(d0, advanced(t), buf);
    } else {
        assert(buf.take(t.done as int) =~= buf);
    }
}

/// A read transfer carried through to its end reads the disk's bytes from
/// its first sector on, from where it stands to its end.
pub proof fn law_read_transfer_reads(disk: Seq<u8>, t: BlkTransfer)
    requires
        t.wf(),
        t.lba * 512 + t.len <= disk.len(),
    ensures
        read_rest(disk, t) == read_bytes(disk, t.lba * 512, t.len as int).subrange(t.done as int, t.len as int),
    decreases t.len - t.done,
{
    if t.done < t.len {
        law_chunks_progress(t);
        law_chunk_reads_in_place(disk, t);
        law_read_transfer_reads(disk, advanced(t));
        let whole = read_bytes(disk, t.lba * 512, t.len as int);
        let n = chunk_len(t);
        assert(whole.subrange(t.done as int, t.len as int)
            =~= whole.subrange(t.done as int, t.done + n) + whole.subrange(t.done + n, t.len as int));
    } else {
        assert(read_bytes(disk, t.lba * 512, t.len as int).subrange(t.done as int, t.len as int) =~= Seq::<u8>::empty());
    }
}

/// A read of the sectors a completed write stored gives back what was
/// written: write transfer `w` and read transfer `r` over the same sectors,
/// both from their start, each carried through request by request.
pub proof fn law_transfer_read_after_write(d0: Seq<u8>, w: BlkTransfer, r: BlkTransfer, data: Seq<u8>)
    requires
        w.wf(),
        r.wf(),
        w.done == 0,
        r.done == 0,
        r.lba == w.lba,
        r.len == w.len,
        data.len() == w.len,
        w.lba * 512 + w.len <= d0.len(),
    ensures
        read_rest(write_rest(d0, w, data), r) == data,
{
    assert(data.take(0) =~= Seq::<u8>::empty());
    assert(write_bytes(d0, w.lba * 512, data.take(0)) =~= d0);
    law_write_transfer_stores(d0, w, data);
    let d1 = write_bytes(d0, w.lba * 512, data);
    law_read_transfer_reads(d1, r);
    law_read_after_write(d1, w.lba as int, data);
    law_read_after_write(d0, w.lba as int, data);
    assert(read_bytes(d1, r.lba * 512, r.len as int).subrange(0, r.len as int) =~= read_bytes(d1, r.lba * 512, r.len as int));
}

/// The virtio-blk wire values: request types IN 0, OUT 1, FLUSH 4; status
/// OK 0; the flush feature is bit 9; the device is vendor 0x1af4, device
/// 0x1042 (modern virtio-blk).
pub proof fn law_virtio_blk_values()
    ensures
        BLOCK_T_IN == 0 && BLOCK_T_OUT == 1 && BLOCK_T_FLUSH == 4 && BLOCK_S_OK == 0,
        VIRTIO_BLK_F_FLUSH == 1u64 << 9,
        VIRTIO_VENDOR == 0x1af4 && VIRTIO_BLK_DEVICE == 0x1042,
{
    assert(1u64 << 9 == 0x200) by (bit_vector);
}

} // verus!
