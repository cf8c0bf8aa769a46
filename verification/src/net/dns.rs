//! The DNS resolver's decisions: which server to ask, how a lookup's
//! failure maps to a network error, how long to wait for each answer, and
//! which answers to take. The lookup's message state machine runs outside
//! this library.
use vstd::prelude::*;
use crate::net::{NetConfig, NetError};

verus! {

/// The DNS server port.
pub const DNS_PORT: u16 = 53;
/// The longest single wait for an answer, in milliseconds.
pub const POLL_MS: u64 = 50;

/// How a lookup failed.
#[derive(Debug, Clone, Copy, PartialEq, Eq, Structural)]
pub enum LookupError {
    InvalidName,
    ServerFailure,
    NotFound,
    Timeout,
    CnameLoop,
}

/// The network error a failed lookup gives: a CNAME loop counts as a
/// server failure.
pub fn lookup_error(e: LookupError) -> (r: NetError)
    ensures
        r == match e {
            LookupError::InvalidName => NetError::InvalidName,
            LookupError::ServerFailure => NetError::ServerFailure,
            LookupError::NotFound => NetError::NotFound,
            LookupError::Timeout => NetError::Timeout,
            LookupError::CnameLoop => NetError::ServerFailure,
        },
{
    match e {
        LookupError::InvalidName => NetError::InvalidName,
        LookupError::ServerFailure => NetError::ServerFailure,
        LookupError::NotFound => NetError::NotFound,
        LookupError::Timeout => NetError::Timeout,
        LookupError::CnameLoop => NetError::ServerFailure,
    }
}

/// The server to send a lookup to: the DNS server of the interface's
/// DHCP lease, port 53; `NoInterface` without an interface or a lease.
pub fn resolve_server(iface: Option<&NetConfig>) -> (r: Result<([u8; 4], u16), NetError>)
    ensures
        match iface {
            Some(cfg) => match cfg.lease {
                Some(l) => r == Ok::<([u8; 4], u16), NetError>((l.dns, DNS_PORT)),
                None => r == Err::<([u8; 4], u16), NetError>(NetError::NoInterface),
            },
            None => r == Err::<([u8; 4], u16), NetError>(NetError::NoInterface),
        },
{
    match iface {
        Some(cfg) => match cfg.lease {
            Some(l) => Ok((l.dns, DNS_PORT)),
            None => Err(NetError::NoInterface),
        },
        None => Err(NetError::NoInterface),
    }
}

/// How long to wait for the next answer at `now` for a lookup that began
/// at `start` with `timeout` milliseconds: what is left, at most 50;
/// `Timeout` once nothing is left.
pub fn recv_budget(now: u64, start: u64, timeout: u64) -> (r: Result<u64, NetError>)
    requires
        start + timeout <= u64::MAX,
    ensures
        now < start + timeout ==> r == Ok::<u64, NetError>(
            if start + timeout - now < POLL_MS { (start + timeout - now) as u64 } else { POLL_MS }),
        now >= start + timeout ==> r == Err::<u64, NetError>(NetError::Timeout),
{
    if now < start + timeout {
        let remaining = (start + timeout) - now;
        Ok(if remaining < POLL_MS { remaining } else { POLL_MS })
    } else {
        Err(NetError::Timeout)
    }
}

/// Only answers from the server asked are taken.
pub fn from_server(src_ip: [u8; 4], src_port: u16, server_ip: [u8; 4], server_port: u16) -> (r: bool)
    ensures
        r == (src_ip == server_ip && src_port == server_port),
{
    let same = src_ip[0] == server_ip[0] && src_ip[1] == server_ip[1] && src_ip[2] == server_ip[2]
        && src_ip[3] == server_ip[3];
    proof {
        if same {
            assert(src_ip =~= server_ip);
        }
    }
    same && src_port == server_port
}

/// The first query id, from two random bytes (big-endian); later queries
/// count up from it, wrapping.
pub fn first_query_id(bytes: [u8; 2]) -> (r: u16)
    ensures
        r == bytes[0] * 256 + bytes[1],
{
    (bytes[0] as u16) * 256 + (bytes[1] as u16)
}

} // verus!
