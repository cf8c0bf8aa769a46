//! The virtio network device's transmit rule.
use vstd::prelude::*;

verus! {

/// Why a frame could not be sent.
#[derive(Debug, Clone, Copy, PartialEq, Eq, Structural)]
pub enum NetError {
    InvalidLength,
    OutOfRange,
    Io(u8),
    Timeout,
}

/// The largest frame the transmit bounce buffer takes.
pub const MAX_FRAME: usize = 2048;
/// The size of the virtio-net header sent before each frame.
pub const NET_HEADER_LEN: u32 = 12;

/// The two buffers to chain for sending a frame of `len` bytes from the
/// bounce buffer at physical address `bounce` (header, then frame);
/// `InvalidLength` for a frame over 2048 bytes.
pub fn tx_buffers(len: usize, bounce: u64) -> (r: Result<Vec<(u64, u32, bool)>, NetError>)
    requires
        bounce + NET_HEADER_LEN <= u64::MAX,
    ensures
        len > MAX_FRAME ==> r == Err::<Vec<(u64, u32, bool)>, NetError>(NetError::InvalidLength),
        len <= MAX_FRAME ==> (r matches Ok(v) && v@ == seq![(bounce, NET_HEADER_LEN, false), ((bounce + NET_HEADER_LEN) as u64, len as u32, false)]),
{
    if len > MAX_FRAME {
        return Err(NetError::InvalidLength);
    }
    let mut v: Vec<(u64, u32, bool)> = Vec::new();
    v.push((bounce, NET_HEADER_LEN, false));
    v.push((bounce + NET_HEADER_LEN as u64, len as u32, false));
    proof {
        assert(v@ =~= seq![(bounce, NET_HEADER_LEN, false), ((bounce + NET_HEADER_LEN) as u64, len as u32, false)]);
    }
    Ok(v)
}

} // verus!
