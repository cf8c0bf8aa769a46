//! Networking logic: the interface's addressing and its DHCP lease, the
//! UDP socket table, and the decisions of the DNS resolver. Frames are
//! built, parsed and moved outside this library.
pub mod dhcp;
pub mod dns;
pub mod udp;

use vstd::prelude::*;
use crate::net::dhcp::Lease;

verus! {

/// Why a network operation failed.
#[derive(Debug, Clone, Copy, PartialEq, Eq, Structural)]
pub enum NetError {
    Timeout,
    TooLarge,
    NoInterface,
    AddressInUse,
    NotFound,
    InvalidName,
    ServerFailure,
}

impl NetError {
    /// The error's name.
    pub fn name(&self) -> (r: &'static str)
        ensures
            match self {
                NetError::Timeout => r@ == "Timeout"@,
                NetError::TooLarge => r@ == "TooLarge"@,
                NetError::NoInterface => r@ == "NoInterface"@,
                NetError::AddressInUse => r@ == "AddressInUse"@,
                NetError::NotFound => r@ == "NotFound"@,
                NetError::InvalidName => r@ == "InvalidName"@,
                NetError::ServerFailure => r@ == "ServerFailure"@,
            },
    {
        match self {
            NetError::Timeout => "Timeout",
            NetError::TooLarge => "TooLarge",
            NetError::NoInterface => "NoInterface",
            NetError::AddressInUse => "AddressInUse",
            NetError::NotFound => "NotFound",
            NetError::InvalidName => "InvalidName",
            NetError::ServerFailure => "ServerFailure",
        }
    }
}

/// Counters of the interface.
#[derive(Clone, Copy, Debug, PartialEq, Eq, Structural)]
pub struct NetStats {
    pub rx_frames: u64,
    pub tx_frames: u64,
    pub rx_dropped: u64,
    pub arp_requests_sent: u64,
    pub arp_replies_sent: u64,
    pub icmp_echo_replies_received: u64,
    pub udp_no_port: u64,
    pub udp_bad_checksum: u64,
}

impl NetStats {
    /// All counters at zero.
    pub fn new() -> (r: Self)
        ensures
            r == (NetStats {
                rx_frames: 0, tx_frames: 0, rx_dropped: 0, arp_requests_sent: 0, arp_replies_sent: 0,
                icmp_echo_replies_received: 0, udp_no_port: 0, udp_bad_checksum: 0,
            }),
    {
        NetStats {
            rx_frames: 0, tx_frames: 0, rx_dropped: 0, arp_requests_sent: 0, arp_replies_sent: 0,
            icmp_echo_replies_received: 0, udp_no_port: 0, udp_bad_checksum: 0,
        }
    }
}

/// The bytes of the device header in front of every received frame.
pub const RX_HEADER_LEN: usize = 12;

/// What the receive path does with one frame.
#[derive(Clone, Copy, Debug, PartialEq, Eq, Structural)]
pub enum RxAction {
    /// Too short for the device header, or no Ethernet frame: dropped.
    Malformed,
    /// An ARP packet: answered by the ARP handler.
    Arp,
    /// An IPv4 ICMP packet: answered by the echo handler.
    Icmp,
    /// An IPv4 UDP packet: delivered to its port.
    Udp,
    /// An IPv4 packet that does not parse, or of another protocol: counted
    /// as received, nothing more.
    Ignored,
    /// Another ethertype: counted as received and dropped.
    Unsupported,
}

/// Decides what becomes of a received frame of `frame_len` bytes
/// (device header included), given its ethertype (`None` if no Ethernet
/// frame parses from it) and, for IPv4, its protocol (`None` if the IPv4
/// header does not parse).
pub fn rx_action(frame_len: usize, ethertype: Option<u16>, ip_protocol: Option<u8>) -> (r: RxAction)
    ensures
        r == (if frame_len < RX_HEADER_LEN || ethertype is None {
            RxAction::Malformed
        } else if ethertype == Some(0x0806u16) {
            RxAction::Arp
        } else if ethertype == Some(0x0800u16) {
            if ip_protocol == Some(1u8) {
                RxAction::Icmp
            } else if ip_protocol == Some(17u8) {
                RxAction::Udp
            } else {
                RxAction::Ignored
            }
        } else {
            RxAction::Unsupported
        }),
{
    if frame_len < RX_HEADER_LEN {
        return RxAction::Malformed;
    }
    match ethertype {
        None => RxAction::Malformed,
        Some(0x0806) => RxAction::Arp,
        Some(0x0800) => match ip_protocol {
            Some(1) => RxAction::Icmp,
            Some(17) => RxAction::Udp,
            _ => RxAction::Ignored,
        },
        Some(_) => RxAction::Unsupported,
    }
}

/// Counts a frame the receive path handled as `a`: every frame with an
/// Ethernet header counts as received; malformed and unsupported ones
/// count as dropped.
pub fn count_rx(stats: &mut NetStats, a: RxAction)
    requires
        old(stats).rx_frames < u64::MAX,
        old(stats).rx_dropped < u64::MAX,
    ensures
        final(stats).rx_frames == old(stats).rx_frames + (if a == RxAction::Malformed { 0int } else { 1int }),
        final(stats).rx_dropped == old(stats).rx_dropped
            + (if a == RxAction::Malformed || a == RxAction::Unsupported { 1int } else { 0int }),
        final(stats).tx_frames == old(stats).tx_frames,
        final(stats).arp_requests_sent == old(stats).arp_requests_sent,
        final(stats).arp_replies_sent == old(stats).arp_replies_sent,
        final(stats).icmp_echo_replies_received == old(stats).icmp_echo_replies_received,
        final(stats).udp_no_port == old(stats).udp_no_port,
        final(stats).udp_bad_checksum == old(stats).udp_bad_checksum,
{
    if a != RxAction::Malformed {
        stats.rx_frames = stats.rx_frames + 1;
    }
    if a == RxAction::Malformed || a == RxAction::Unsupported {
        stats.rx_dropped = stats.rx_dropped + 1;
    }
}

/// How long DHCP gets before the static fallback is announced, in ms.
pub const DHCP_TIMEOUT_MS: u64 = 10000;

/// Whether the static fallback is to be announced now: DHCP started at
/// `start` and has run more than `DHCP_TIMEOUT_MS` by `now`, no lease came,
/// and it was not announced yet.
pub fn dhcp_fallback_due(now: u64, start: u64, leased: bool, printed: bool) -> (r: bool)
    requires
        start <= now,
    ensures
        r == (now - start > DHCP_TIMEOUT_MS && !leased && !printed),
{
    now - start > DHCP_TIMEOUT_MS && !leased && !printed
}

/// The interface's addressing: its MAC, IPv4 address, gateway, DNS
/// server, netmask, and the DHCP lease these came from, if any.
#[derive(Clone, Copy, Debug)]
pub struct NetConfig {
    pub mac: [u8; 6],
    pub ipv4: [u8; 4],
    pub gateway: [u8; 4],
    pub dns_server: [u8; 4],
    pub netmask: [u8; 4],
    pub lease: Option<Lease>,
    pub fallback_printed: bool,
}

/// Brings up the interface with MAC `mac` and the emulator's default
/// addressing (10.0.2.15/24, gateway 10.0.2.2, DNS 10.0.2.3) until DHCP
/// answers.
pub fn init(mac: [u8; 6]) -> (r: NetConfig)
    ensures
        r == (NetConfig {
            mac,
            ipv4: [10, 0, 2, 15],
            gateway: [10, 0, 2, 2],
            dns_server: [10, 0, 2, 3],
            netmask: [255, 255, 255, 0],
            lease: None,
            fallback_printed: false,
        }),
{
    NetConfig {
        mac,
        ipv4: [10, 0, 2, 15],
        gateway: [10, 0, 2, 2],
        dns_server: [10, 0, 2, 3],
        netmask: [255, 255, 255, 0],
        lease: None,
        fallback_printed: false,
    }
}

/// An address as a big-endian `u32`.
pub open spec fn be32(a: [u8; 4]) -> u32 {
    (a[0] as int * 0x100_0000 + a[1] as int * 0x1_0000 + a[2] as int * 0x100 + a[3] as int) as u32
}

/// `be32`, computed.
pub fn ip_to_u32(a: [u8; 4]) -> (r: u32)
    ensures
        r == be32(a),
{
    (a[0] as u32) * 0x100_0000 + (a[1] as u32) * 0x1_0000 + (a[2] as u32) * 0x100 + (a[3] as u32)
}

} // verus!
