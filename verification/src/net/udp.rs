//! The UDP socket table: binding ports (given or ephemeral), queueing
//! received datagrams per port, taking them out, and the routing decision
//! for a send.
use vstd::prelude::*;
use std::collections::BTreeMap;
use crate::net::{NetConfig, NetError, NetStats, be32, ip_to_u32};

verus! {

broadcast use vstd::laws_cmp::group_laws_cmp, vstd::std_specs::btree::group_btree_axioms;

/// A received datagram: its payload and where it came from.
#[derive(Clone, Debug)]
pub struct UdpDatagram {
    pub data: Vec<u8>,
    pub src_ip: [u8; 4],
    pub src_port: u16,
}

/// A bound UDP port.
pub struct UdpSocket {
    local_port: u16,
}

/// The first ephemeral port.
pub const EPHEMERAL_FIRST: u16 = 49152;
/// Datagrams a port queues at most; more are dropped.
pub const MAX_QUEUED: usize = 64;

/// The bound ports, each with its queue of received datagrams, and the
/// next ephemeral port to try.
pub struct UdpTable {
    sockets: BTreeMap<u16, Vec<UdpDatagram>>,
    next_ephemeral: u16,
}

/// The `k`-th ephemeral port from `start` on, cycling through
/// 49152..=65535.
pub open spec fn cyc(start: u16, k: int) -> u16 {
    (EPHEMERAL_FIRST + (start - EPHEMERAL_FIRST + k) % 16384) as u16
}

impl UdpSocket {
    pub closed spec fn port_spec(&self) -> u16 {
        self.local_port
    }

    /// The bound port.
    pub fn local_port(&self) -> (r: u16)
        ensures
            r == self.port_spec(),
    {
        self.local_port
    }
}

impl UdpTable {
    pub closed spec fn queues(&self) -> Map<u16, Vec<UdpDatagram>> {
        self.sockets@
    }

    pub closed spec fn next_spec(&self) -> u16 {
        self.next_ephemeral
    }

    /// The next ephemeral port lies in the ephemeral range.
    pub open spec fn wf(&self) -> bool {
        self.next_spec() >= EPHEMERAL_FIRST
    }

    /// No ports bound; ephemeral ports start at 49152.
    pub fn new() -> (r: Self)
        ensures
            r.wf(),
            r.queues() == Map::<u16, Vec<UdpDatagram>>::empty(),
            r.next_spec() == EPHEMERAL_FIRST,
    {
        UdpTable { sockets: BTreeMap::new(), next_ephemeral: EPHEMERAL_FIRST }
    }

    /// Binds `port`, or with port 0 the first free ephemeral port from the
    /// next one on (cycling through the range; the one after it is tried
    /// first next time). `AddressInUse` if the port is taken, or for port 0
    /// if every ephemeral port is.
    pub fn bind(&mut self, port: u16) -> (r: Result<UdpSocket, NetError>)
        requires
            old(self).wf(),
        ensures
            final(self).wf(),
            port != 0 ==> {
                if old(self).queues().contains_key(port) {
                    r == Err::<UdpSocket, NetError>(NetError::AddressInUse) && final(self).queues() == old(self).queues()
                } else {
                    r matches Ok(s) && s.port_spec() == port
                }
            },
            port == 0 ==> {
                if exists|k: int| 0 <= k < 16384 && !old(self).queues().contains_key(#[trigger] cyc(old(self).next_spec(), k)) {
                    let k = choose|k: int| 0 <= k < 16384 && !old(self).queues().contains_key(#[trigger] cyc(old(self).next_spec(), k))
                        && forall|j: int| 0 <= j < k ==> old(self).queues().contains_key(#[trigger] cyc(old(self).next_spec(), j));
                    let p = cyc(old(self).next_spec(), k);
                    &&& r matches Ok(s) && s.port_spec() == p
                    &&& final(self).next_spec() == cyc(old(self).next_spec(), k + 1)
                } else {
                    r == Err::<UdpSocket, NetError>(NetError::AddressInUse) && final(self).queues() == old(self).queues()
                }
            },
            r matches Ok(s) ==> {
                &&& !old(self).queues().contains_key(s.port_spec())
                &&& final(self).queues().dom() == old(self).queues().dom().insert(s.port_spec())
                &&& final(self).queues()[s.port_spec()]@.len() == 0
                &&& forall|o: u16| #[trigger] old(self).queues().contains_key(o) ==> final(self).queues()[o] == old(self).queues()[o]
            },
            port != 0 || r is Err ==> final(self).next_spec() == old(self).next_spec(),
    {
        if port != 0 {
            if self.sockets.contains_key(&port) {
                return Err(NetError::AddressInUse);
            }
            self.sockets.insert(port, Vec::new());
            proof {
                assert(self.queues().dom() =~= old(self).queues().dom().insert(port));
            }
            return Ok(UdpSocket { local_port: port });
        }
        let start = self.next_ephemeral;
        let mut k: u16 = 0;
        let mut attempt = start;
        while k < 16384
            invariant
                port == 0,
                self.queues() == old(self).queues(),
                self.next_spec() == old(self).next_spec(),
                start == old(self).next_spec(),
                start >= EPHEMERAL_FIRST,
                k <= 16384,
                attempt == cyc(start, k as int),
                forall|j: int| 0 <= j < k ==> self.queues().contains_key(#[trigger] cyc(start, j)),
            decreases 16384 - k,
        {
            if !self.sockets.contains_key(&attempt) {
                self.sockets.insert(attempt, Vec::new());
                proof {
                    assert(self.queues().dom() =~= old(self).queues().dom().insert(attempt));
                }
                let next = if attempt == 65535 { EPHEMERAL_FIRST } else { attempt + 1 };
                self.next_ephemeral = next;
                proof {
                    let kk = k as int;
                    assert(!old(self).queues().contains_key(cyc(start, kk)));
                    let c = choose|c: int| 0 <= c < 16384 && !old(self).queues().contains_key(#[trigger] cyc(start, c))
                        && forall|j: int| 0 <= j < c ==> old(self).queues().contains_key(#[trigger] cyc(start, j));
                    if c < kk {
                        assert(old(self).queues().contains_key(cyc(start, c)));
                    }
                    if c > kk {
                        assert(old(self).queues().contains_key(cyc(start, kk)));
                    }
                    lemma_cyc_next(start, kk);
                }
                return Ok(UdpSocket { local_port: attempt });
            }
            proof {
                lemma_cyc_next(start, k as int);
            }
            attempt = if attempt == 65535 { EPHEMERAL_FIRST } else { attempt + 1 };
            k = k + 1;
        }
        Err(NetError::AddressInUse)
    }

    /// Unbinds `sock`'s port, dropping what was queued there.
    pub fn close(&mut self, sock: UdpSocket)
        ensures
            final(self).queues() == old(self).queues().remove(sock.port_spec()),
            final(self).next_spec() == old(self).next_spec(),
    {
        let _ = self.sockets.remove(&sock.local_port);
    }
}

/// The port after `cyc(start, k)` is `cyc(start, k + 1)`.
proof fn lemma_cyc_next(start: u16, k: int)
    requires
        start >= EPHEMERAL_FIRST,
        0 <= k,
    ensures
        cyc(start, k + 1) == (if cyc(start, k) == 65535 { EPHEMERAL_FIRST } else { (cyc(start, k) + 1) as u16 }),
        cyc(start, k) >= EPHEMERAL_FIRST,
{
    let a = start - EPHEMERAL_FIRST + k;
    vstd::arithmetic::div_mod::lemma_add_mod_noop(a, 1, 16384);
    vstd::arithmetic::div_mod::lemma_mod_bound(a, 16384);
    vstd::arithmetic::div_mod::lemma_small_mod(1, 16384);
    if a % 16384 < 16383 {
        vstd::arithmetic::div_mod::lemma_small_mod((a % 16384 + 1) as nat, 16384);
    } else {
        assert((a % 16384 + 1) % 16384 == 0) by {
            vstd::arithmetic::div_mod::lemma_mod_self_0(16384);
        }
    }
}

/// A datagram taken from a port's queue: its first `max` bytes (at most),
/// and where it came from.
pub open spec fn taken(d: UdpDatagram, max: int) -> (Seq<u8>, [u8; 4], u16) {
    (d.data@.take(if d.data@.len() < max { d.data@.len() as int } else { max }), d.src_ip, d.src_port)
}

/// Takes the oldest datagram queued on `sock`'s port, returning at most
/// `max` bytes of it; with none queued, `Timeout` once `now` has reached
/// `deadline`, else `None` (the caller sleeps a tick and asks again).
pub fn recv_from(t: &mut UdpTable, sock: &UdpSocket, max: usize, now: u64, deadline: u64)
    -> (r: Result<Option<(Vec<u8>, [u8; 4], u16)>, NetError>)
    ensures
        ({
            let p = sock.port_spec();
            let q = old(t).queues();
            if q.contains_key(p) && q[p]@.len() > 0 {
                &&& r matches Ok(Some((data, ip, port))) && (data@, ip, port) == taken(q[p]@[0], max as int)
                &&& final(t).queues().dom() == q.dom()
                &&& final(t).queues()[p]@ == q[p]@.drop_first()
                &&& forall|o: u16| o != p && #[trigger] q.contains_key(o) ==> final(t).queues()[o] == q[o]
            } else {
                &&& r == (if now >= deadline { Err(NetError::Timeout) } else {
                    Ok::<Option<(Vec<u8>, [u8; 4], u16)>, NetError>(None) })
                &&& final(t).queues() == q
            }
        }),
        final(t).next_spec() == old(t).next_spec(),
{
    let p = sock.local_port;
    let q = t.sockets.remove(&p);
    match q {
        Some(mut queue) => {
            if queue.len() > 0 {
                let d = queue.remove(0);
                t.sockets.insert(p, queue);
                let n = if d.data.len() < max { d.data.len() } else { max };
                let data = vstd::slice::slice_subrange(d.data.as_slice(), 0, n);
                let out = vstd::slice::slice_to_vec(data);
                proof {
                    assert(out@ =~= d.data@.take(n as int));
                    assert(t.queues().dom() =~= old(t).queues().dom());
                }
                return Ok(Some((out, d.src_ip, d.src_port)));
            }
            t.sockets.insert(p, queue);
            proof {
                assert(t.queues() =~= old(t).queues());
            }
        },
        None => {
            proof {
                assert(t.queues() =~= old(t).queues());
            }
        },
    }
    if now >= deadline { Err(NetError::Timeout) } else { Ok(None) }
}

/// Where a datagram goes.
#[derive(Clone, Copy, Debug)]
pub enum Route {
    /// To everyone on the link.
    Broadcast,
    /// To the link-layer neighbour with this address.
    Via([u8; 4]),
}

/// `a` and `b` lie in the same subnet under `mask`.
pub open spec fn same_subnet(a: [u8; 4], b: [u8; 4], mask: [u8; 4]) -> bool {
    be32(a) & be32(mask) == be32(b) & be32(mask)
}

/// Where a datagram of `len` payload bytes to `dst` goes from interface
/// `cfg`: `TooLarge` if it doesn't fit one 1500-byte packet with its 28
/// header bytes; the limited broadcast address goes to everyone; an
/// address in the interface's subnet directly, any other via the gateway.
pub fn route(cfg: &NetConfig, dst: [u8; 4], len: usize) -> (r: Result<Route, NetError>)
    ensures
        len + 28 > 1500 ==> r == Err::<Route, NetError>(NetError::TooLarge),
        len + 28 <= 1500 && dst == [255u8, 255, 255, 255] ==> r == Ok::<Route, NetError>(Route::Broadcast),
        len + 28 <= 1500 && dst != [255u8, 255, 255, 255] ==> r == Ok::<Route, NetError>(Route::Via(
            if same_subnet(cfg.ipv4, dst, cfg.netmask) { dst } else { cfg.gateway })),
{
    if len > 1500 - 28 {
        return Err(NetError::TooLarge);
    }
    if dst[0] == 255 && dst[1] == 255 && dst[2] == 255 && dst[3] == 255 {
        proof {
            assert(dst =~= [255u8, 255, 255, 255]);
        }
        return Ok(Route::Broadcast);
    }
    proof {
        if dst == [255u8, 255, 255, 255] {
            assert(dst[0] == 255);
        }
    }
    let ours = ip_to_u32(cfg.ipv4);
    let theirs = ip_to_u32(dst);
    let mask = ip_to_u32(cfg.netmask);
    if ours & mask == theirs & mask {
        Ok(Route::Via(dst))
    } else {
        Ok(Route::Via(cfg.gateway))
    }
}

/// What became of a received datagram.
#[derive(Clone, Copy, Debug, PartialEq, Eq, Structural)]
pub enum Delivery {
    /// Its checksum was wrong; counted and dropped.
    BadChecksum,
    /// It is for the DHCP client (port 68).
    Dhcp,
    /// It was addressed to another host; dropped.
    NotForUs,
    /// Queued on its port.
    Queued,
    /// Its port's queue was full; dropped.
    QueueFull,
    /// No socket is bound to its port; counted and dropped.
    NoPort,
}

/// `dst` is this interface's address, the limited broadcast address, or
/// its subnet's broadcast address.
pub open spec fn for_us(cfg: NetConfig, dst: [u8; 4]) -> bool {
    ||| dst == cfg.ipv4
    ||| dst == [255u8, 255, 255, 255]
    ||| be32(dst) == (be32(cfg.ipv4) & be32(cfg.netmask)) | !be32(cfg.netmask)
}

/// Hands a received datagram (`payload` from `src_ip:src_port` to
/// `dst_ip:dst_port`, its checksum verified as `checksum_ok`) to the
/// socket table.
pub fn deliver(t: &mut UdpTable, stats: &mut NetStats, cfg: &NetConfig, src_ip: [u8; 4], dst_ip: [u8; 4],
    src_port: u16, dst_port: u16, payload: &[u8], checksum_ok: bool) -> (r: Delivery)
    requires
        old(stats).udp_bad_checksum < u64::MAX,
        old(stats).udp_no_port < u64::MAX,
    ensures
        final(t).next_spec() == old(t).next_spec(),
        !checksum_ok ==> r == Delivery::BadChecksum && *final(stats) == (NetStats { udp_bad_checksum: (old(stats).udp_bad_checksum + 1) as u64, ..*old(stats) })
            && final(t).queues() == old(t).queues(),
        checksum_ok && dst_port == 68 ==> r == Delivery::Dhcp && *final(stats) == *old(stats) && final(t).queues() == old(t).queues(),
        checksum_ok && dst_port != 68 && !for_us(*cfg, dst_ip) ==> r == Delivery::NotForUs && *final(stats) == *old(stats)
            && final(t).queues() == old(t).queues(),
        checksum_ok && dst_port != 68 && for_us(*cfg, dst_ip) ==> {
            let q = old(t).queues();
            if !q.contains_key(dst_port) {
                r == Delivery::NoPort && *final(stats) == (NetStats { udp_no_port: (old(stats).udp_no_port + 1) as u64, ..*old(stats) })
                    && final(t).queues() == q
            } else if q[dst_port]@.len() >= MAX_QUEUED {
                r == Delivery::QueueFull && *final(stats) == *old(stats) && final(t).queues() == q
            } else {
                &&& r == Delivery::Queued
                &&& *final(stats) == *old(stats)
                &&& final(t).queues().dom() == q.dom()
                &&& final(t).queues()[dst_port]@.len() == q[dst_port]@.len() + 1
                &&& final(t).queues()[dst_port]@.take(q[dst_port]@.len() as int) == q[dst_port]@
                &&& final(t).queues()[dst_port]@.last().data@ == payload@
                &&& final(t).queues()[dst_port]@.last().src_ip == src_ip
                &&& final(t).queues()[dst_port]@.last().src_port == src_port
                &&& forall|o: u16| o != dst_port && #[trigger] q.contains_key(o) ==> final(t).queues()[o] == q[o]
            }
        },
{
    if !checksum_ok {
        stats.udp_bad_checksum = stats.udp_bad_checksum + 1;
        return Delivery::BadChecksum;
    }
    if dst_port == 68 {
        return Delivery::Dhcp;
    }
    let is_ours = dst_ip[0] == cfg.ipv4[0] && dst_ip[1] == cfg.ipv4[1] && dst_ip[2] == cfg.ipv4[2] && dst_ip[3] == cfg.ipv4[3];
    let is_bcast = dst_ip[0] == 255 && dst_ip[1] == 255 && dst_ip[2] == 255 && dst_ip[3] == 255;
    proof {
        assert(is_ours <==> dst_ip == cfg.ipv4) by {
            if is_ours {
                assert(dst_ip =~= cfg.ipv4);
            }
        }
        assert(is_bcast <==> dst_ip == [255u8, 255, 255, 255]) by {
            if is_bcast {
                assert(dst_ip =~= [255u8, 255, 255, 255]);
            }
        }
    }
    if !is_ours && !is_bcast {
        let ours = ip_to_u32(cfg.ipv4);
        let mask = ip_to_u32(cfg.netmask);
        let subnet_bcast = (ours & mask) | !mask;
        if ip_to_u32(dst_ip) != subnet_bcast {
            return Delivery::NotForUs;
        }
    }
    match t.sockets.remove(&dst_port) {
        None => {
            proof {
                assert(t.queues() =~= old(t).queues());
            }
            stats.udp_no_port = stats.udp_no_port + 1;
            Delivery::NoPort
        },
        Some(mut queue) => {
            if queue.len() < MAX_QUEUED {
                let data = vstd::slice::slice_to_vec(payload);
                queue.push(UdpDatagram { data, src_ip, src_port });
                t.sockets.insert(dst_port, queue);
                proof {
                    assert(t.queues().dom() =~= old(t).queues().dom());
                    assert(t.queues()[dst_port]@.take(old(t).queues()[dst_port]@.len() as int) =~= old(t).queues()[dst_port]@);
                }
                Delivery::Queued
            } else {
                t.sockets.insert(dst_port, queue);
                proof {
                    assert(t.queues() =~= old(t).queues());
                }
                Delivery::QueueFull
            }
        },
    }
}

} // verus!
