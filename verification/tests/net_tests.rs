use otteros_kernel::net::dhcp::{apply_lease, netmask_to_prefix, Lease};
use otteros_kernel::net::dns::{first_query_id, from_server, lookup_error, recv_budget, resolve_server, LookupError};
use otteros_kernel::net::udp::{deliver, recv_from, route, Delivery, Route, UdpTable};
use otteros_kernel::net::{count_rx, dhcp_fallback_due, init, ip_to_u32, rx_action, NetError, NetStats, RxAction};

#[test]
fn defaults_and_lease() {
    let mut cfg = init([2, 0, 0, 0, 0, 1]);
    assert_eq!(cfg.ipv4, [10, 0, 2, 15]);
    assert_eq!(cfg.gateway, [10, 0, 2, 2]);
    assert!(cfg.lease.is_none());
    let lease = apply_lease(&mut cfg, [192, 168, 1, 20], [192, 168, 1, 1], [1, 1, 1, 1], 3_600_500, [255, 255, 255, 0]);
    assert_eq!(lease.lease_secs, 3600);
    assert_eq!(cfg.ipv4, [192, 168, 1, 20]);
    assert_eq!(cfg.dns_server, [1, 1, 1, 1]);
    assert_eq!(cfg.lease.unwrap().address, [192, 168, 1, 20]);
    assert_eq!(netmask_to_prefix([255, 255, 255, 0]), 24);
    assert_eq!(netmask_to_prefix([255, 255, 240, 0]), 20);
    assert_eq!(netmask_to_prefix([0, 0, 0, 0]), 0);
    assert_eq!(netmask_to_prefix([255, 255, 255, 255]), 32);
}

#[test]
fn ip_as_u32() {
    assert_eq!(ip_to_u32([10, 0, 2, 15]), 0x0a00_020f);
}

#[test]
fn error_names() {
    assert_eq!(NetError::Timeout.name(), "Timeout");
    assert_eq!(NetError::AddressInUse.name(), "AddressInUse");
    assert_eq!(NetError::ServerFailure.name(), "ServerFailure");
}

#[test]
fn bind_fixed_and_ephemeral() {
    let mut t = UdpTable::new();
    let s = t.bind(53).unwrap();
    assert_eq!(s.local_port(), 53);
    assert_eq!(t.bind(53).err(), Some(NetError::AddressInUse));
    let e1 = t.bind(0).unwrap();
    assert_eq!(e1.local_port(), 49152);
    let e2 = t.bind(0).unwrap();
    assert_eq!(e2.local_port(), 49153);
    t.close(e1);
    let e3 = t.bind(0).unwrap();
    assert_eq!(e3.local_port(), 49154);
    let taken = t.bind(49152).unwrap();
    assert_eq!(taken.local_port(), 49152);
}

#[test]
fn ephemeral_wraps() {
    let mut t = UdpTable::new();
    let mut last = 0;
    for _ in 0..16384 {
        last = t.bind(0).unwrap().local_port();
    }
    assert_eq!(last, 65535);
    assert_eq!(t.bind(0).err(), Some(NetError::AddressInUse));
}

#[test]
fn deliver_then_receive() {
    let cfg = init([0; 6]);
    let mut t = UdpTable::new();
    let mut stats = NetStats::new();
    let s = t.bind(7000).unwrap();
    assert_eq!(recv_from(&mut t, &s, 100, 5, 10).unwrap(), None);
    assert_eq!(recv_from(&mut t, &s, 100, 10, 10).err(), Some(NetError::Timeout));
    let r = deliver(&mut t, &mut stats, &cfg, [10, 0, 2, 2], [10, 0, 2, 15], 53, 7000, b"hello", true);
    assert_eq!(r, Delivery::Queued);
    let r = deliver(&mut t, &mut stats, &cfg, [10, 0, 2, 3], [10, 0, 2, 255], 54, 7000, b"second", true);
    assert_eq!(r, Delivery::Queued);
    let (data, ip, port) = recv_from(&mut t, &s, 3, 0, 10).unwrap().unwrap();
    assert_eq!(data, b"hel".to_vec());
    assert_eq!(ip, [10, 0, 2, 2]);
    assert_eq!(port, 53);
    let (data, _, port) = recv_from(&mut t, &s, 100, 0, 10).unwrap().unwrap();
    assert_eq!(data, b"second".to_vec());
    assert_eq!(port, 54);
}

#[test]
fn deliver_filters_and_counts() {
    let cfg = init([0; 6]);
    let mut t = UdpTable::new();
    let mut stats = NetStats::new();
    assert_eq!(deliver(&mut t, &mut stats, &cfg, [1, 1, 1, 1], [10, 0, 2, 15], 1, 9, b"x", false), Delivery::BadChecksum);
    assert_eq!(stats.udp_bad_checksum, 1);
    assert_eq!(deliver(&mut t, &mut stats, &cfg, [1, 1, 1, 1], [10, 0, 2, 15], 67, 68, b"x", true), Delivery::Dhcp);
    assert_eq!(deliver(&mut t, &mut stats, &cfg, [1, 1, 1, 1], [10, 0, 3, 15], 1, 9, b"x", true), Delivery::NotForUs);
    assert_eq!(deliver(&mut t, &mut stats, &cfg, [1, 1, 1, 1], [255, 255, 255, 255], 1, 9, b"x", true), Delivery::NoPort);
    assert_eq!(stats.udp_no_port, 1);
    let _s = t.bind(9).unwrap();
    for _ in 0..64 {
        assert_eq!(deliver(&mut t, &mut stats, &cfg, [1, 1, 1, 1], [10, 0, 2, 15], 1, 9, b"x", true), Delivery::Queued);
    }
    assert_eq!(deliver(&mut t, &mut stats, &cfg, [1, 1, 1, 1], [10, 0, 2, 15], 1, 9, b"x", true), Delivery::QueueFull);
}

#[test]
fn routing() {
    let cfg = init([0; 6]);
    assert!(matches!(route(&cfg, [10, 0, 2, 99], 100), Ok(Route::Via([10, 0, 2, 99]))));
    assert!(matches!(route(&cfg, [8, 8, 8, 8], 100), Ok(Route::Via([10, 0, 2, 2]))));
    assert!(matches!(route(&cfg, [255, 255, 255, 255], 100), Ok(Route::Broadcast)));
    assert!(matches!(route(&cfg, [8, 8, 8, 8], 1472), Ok(_)));
    assert!(matches!(route(&cfg, [8, 8, 8, 8], 1473), Err(NetError::TooLarge)));
}

#[test]
fn dns_decisions() {
    assert_eq!(lookup_error(LookupError::CnameLoop), NetError::ServerFailure);
    assert_eq!(lookup_error(LookupError::NotFound), NetError::NotFound);
    assert_eq!(lookup_error(LookupError::InvalidName), NetError::InvalidName);
    let mut cfg = init([0; 6]);
    assert_eq!(resolve_server(None), Err(NetError::NoInterface));
    assert_eq!(resolve_server(Some(&cfg)), Err(NetError::NoInterface));
    apply_lease(&mut cfg, [10, 0, 2, 15], [10, 0, 2, 2], [10, 0, 2, 3], 1000, [255, 255, 255, 0]);
    assert_eq!(resolve_server(Some(&cfg)), Ok(([10, 0, 2, 3], 53)));
    assert_eq!(recv_budget(100, 0, 1000), Ok(50));
    assert_eq!(recv_budget(980, 0, 1000), Ok(20));
    assert_eq!(recv_budget(1000, 0, 1000), Err(NetError::Timeout));
    assert!(from_server([10, 0, 2, 3], 53, [10, 0, 2, 3], 53));
    assert!(!from_server([10, 0, 2, 4], 53, [10, 0, 2, 3], 53));
    assert!(!from_server([10, 0, 2, 3], 54, [10, 0, 2, 3], 53));
    assert_eq!(first_query_id([0x12, 0x34]), 0x1234);
    let _ = Lease { address: [0; 4], router: [0; 4], dns: [0; 4], lease_secs: 0 };
}

#[test]
fn rx_frames_are_routed_and_counted() {
    let mut stats = NetStats::new();
    assert_eq!(rx_action(8, None, None), RxAction::Malformed);
    assert_eq!(rx_action(60, None, None), RxAction::Malformed);
    assert_eq!(rx_action(60, Some(0x0806), None), RxAction::Arp);
    assert_eq!(rx_action(60, Some(0x0800), Some(1)), RxAction::Icmp);
    assert_eq!(rx_action(60, Some(0x0800), Some(17)), RxAction::Udp);
    assert_eq!(rx_action(60, Some(0x0800), Some(6)), RxAction::Ignored);
    assert_eq!(rx_action(60, Some(0x0800), None), RxAction::Ignored);
    assert_eq!(rx_action(60, Some(0x86dd), None), RxAction::Unsupported);
    count_rx(&mut stats, RxAction::Malformed);
    count_rx(&mut stats, RxAction::Udp);
    count_rx(&mut stats, RxAction::Unsupported);
    assert_eq!(stats.rx_frames, 2);
    assert_eq!(stats.rx_dropped, 2);
}

#[test]
fn dhcp_fallback_is_announced_once_after_timeout() {
    assert!(!dhcp_fallback_due(10_000, 0, false, false));
    assert!(dhcp_fallback_due(10_001, 0, false, false));
    assert!(!dhcp_fallback_due(10_001, 0, true, false));
    assert!(!dhcp_fallback_due(10_001, 0, false, true));
}
