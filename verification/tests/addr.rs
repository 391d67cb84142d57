use discovery::addr::DEFAULT_MAX_KNOWN;
use discovery::{AddrKnown, AddrRaw, SocketAddr};

fn raw(ip: u128) -> AddrRaw {
    AddrRaw { ip, port: 80 }
}

#[test]
fn ipv4_is_mapped_into_ipv6() {
    let addr = SocketAddr::V4 { ip: 0x7f00_0001, port: 8115 };
    assert_eq!(AddrRaw::from(addr), AddrRaw { ip: 0xffff_7f00_0001, port: 8115 });
    let top = SocketAddr::V4 { ip: u32::MAX, port: 0 };
    assert_eq!(AddrRaw::from(top), AddrRaw { ip: 0xffff_ffff_ffff, port: 0 });
}

#[test]
fn ipv6_keeps_address_and_port() {
    let addr = SocketAddr::V6 { ip: u128::MAX, port: 1, flowinfo: 2, scope_id: 3 };
    assert_eq!(AddrRaw::from(addr), AddrRaw { ip: u128::MAX, port: 1 });
}

#[test]
fn default_limit() {
    assert_eq!(DEFAULT_MAX_KNOWN, 5000);
}

#[test]
fn inserted_address_is_known() {
    let mut known = AddrKnown::new(10);
    assert!(!known.contains(&raw(1)));
    known.insert(raw(1));
    assert!(known.contains(&raw(1)));
    assert!(!known.contains(&AddrRaw { ip: 1, port: 81 }));
}

#[test]
fn oldest_address_is_forgotten_first() {
    let mut known = AddrKnown::new(3);
    for ip in 1..=3 {
        known.insert(raw(ip));
    }
    // The first one is inserted again and so becomes the newest.
    known.insert(raw(1));
    known.insert(raw(4));
    assert!(known.contains(&raw(1)));
    assert!(!known.contains(&raw(2)));
    assert!(known.contains(&raw(3)));
    assert!(known.contains(&raw(4)));
}

#[test]
fn nothing_is_remembered_where_nothing_may_be() {
    let mut known = AddrKnown::new(0);
    known.insert(raw(1));
    assert!(!known.contains(&raw(1)));
}
