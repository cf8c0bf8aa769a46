//! Taking a DHCP lease into the interface's addressing.
use vstd::prelude::*;
use crate::net::NetConfig;

verus! {

/// What a DHCP server leased: address, router, DNS server and the lease's
/// length in seconds.
#[derive(Clone, Copy, Debug)]
pub struct Lease {
    pub address: [u8; 4],
    pub router: [u8; 4],
    pub dns: [u8; 4],
    pub lease_secs: u32,
}

/// The prefix length of a netmask: the number of its leading one bits.
pub fn netmask_to_prefix(mask: [u8; 4]) -> (r: u8)
    ensures
        r == vstd::std_specs::bits::u32_leading_zeros(!crate::net::be32(mask)),
{
    let m = crate::net::ip_to_u32(mask);
    proof {
        vstd::std_specs::bits::axiom_u32_leading_zeros(!m);
    }
    (!m).leading_zeros() as u8
}

/// Takes a lease of address `ip`, router `router`, DNS server `dns`,
/// `lease_ms` milliseconds and netmask `mask` into the addressing; the
/// lease is recorded in whole seconds.
pub fn apply_lease(cfg: &mut NetConfig, ip: [u8; 4], router: [u8; 4], dns: [u8; 4], lease_ms: u32, mask: [u8; 4]) -> (r: Lease)
    ensures
        r == (Lease { address: ip, router, dns, lease_secs: lease_ms / 1000 }),
        *final(cfg) == (NetConfig {
            ipv4: ip,
            gateway: router,
            dns_server: dns,
            netmask: mask,
            lease: Some(r),
            fallback_printed: false,
            ..*old(cfg)
        }),
{
    let lease = Lease { address: ip, router, dns, lease_secs: lease_ms / 1000 };
    cfg.ipv4 = ip;
    cfg.gateway = router;
    cfg.dns_server = dns;
    cfg.netmask = mask;
    cfg.fallback_printed = false;
    cfg.lease = Some(lease);
    lease
}

} // verus!
