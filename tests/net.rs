use find9::net::{is_bogon, IpAddress};

fn v4(a: u8, b: u8, c: u8, d: u8) -> IpAddress {
    IpAddress::V4(u32::from_be_bytes([a, b, c, d]))
}

fn v6(segments: [u16; 8]) -> IpAddress {
    IpAddress::V6(segments.iter().fold(0u128, |acc, s| (acc << 16) | *s as u128))
}

#[test]
fn ipv4_scope() {
    assert!(v4(8, 8, 8, 8).is_global_unicast());
    assert!(!v4(127, 0, 0, 1).is_global_unicast());
    assert!(!v4(0, 1, 2, 3).is_global_unicast());
    assert!(!v4(169, 254, 1, 1).is_global_unicast());
    assert!(v4(169, 253, 1, 1).is_global_unicast());
    assert!(!v4(224, 0, 0, 1).is_global_unicast());
    assert!(!v4(239, 255, 255, 255).is_global_unicast());
    assert!(v4(240, 0, 0, 1).is_global_unicast());
    assert!(!v4(255, 255, 255, 255).is_global_unicast());
}

#[test]
fn ipv6_scope() {
    assert!(v6([0x2606, 0x4700, 0, 0, 0, 0, 0, 0x1111]).is_global_unicast());
    assert!(!v6([0; 8]).is_global_unicast());
    assert!(!v6([0, 0, 0, 0, 0, 0, 0, 1]).is_global_unicast());
    assert!(!v6([0xfd00, 0, 0, 0, 0, 0, 0, 1]).is_global_unicast());
    assert!(!v6([0xfc12, 0, 0, 0, 0, 0, 0, 1]).is_global_unicast());
    assert!(!v6([0xff02, 0, 0, 0, 0, 0, 0, 1]).is_global_unicast());
    assert!(!v6([0, 0, 0, 0, 0, 0xffff, 0x0808, 0x0808]).is_global_unicast());
}

#[test]
fn teredo_prefix() {
    assert!(v6([0x2001, 0, 0x4136, 0xe378, 0, 0, 0, 1]).is_teredo());
    assert!(!v6([0x2001, 0x0db8, 0, 0, 0, 0, 0, 1]).is_teredo());
    assert!(!v4(32, 1, 0, 0).is_teredo());
}

#[test]
fn bogon_sources() {
    assert!(!is_bogon(v4(8, 8, 8, 8), 53));
    assert!(is_bogon(v4(8, 8, 8, 8), 0));
    assert!(is_bogon(v4(10, 0, 0, 1), 0));
    assert!(is_bogon(v4(127, 0, 0, 1), 5353));
}
