use cloud_init_ext::error::ServiceError;
use cloud_init_ext::ip::{format_ip, parse_ip, Ip, IpAddress};

fn v4(a: u8, b: u8, c: u8, d: u8) -> IpAddress {
    IpAddress::V4(Ip::new(a, b, c, d))
}

fn base() -> Ip {
    Ip::new(10, 10, 0, 0)
}

#[test]
fn next_free_addr_v4() {
    let mut addrs = vec![v4(10, 10, 0, 1), v4(10, 10, 0, 2), v4(10, 10, 0, 4), v4(10, 10, 0, 5)];

    let next_addr = cloud_init_ext::ip::next_free_addr_v4(&addrs, &base())
        .expect("Unable to compute next free address");
    assert_eq!(b"10.10.0.3".to_vec(), format_ip(&next_addr));
    addrs.push(v4(10, 10, 0, 3));

    let next_addr = cloud_init_ext::ip::next_free_addr_v4(&addrs, &base())
        .expect("Unable to compute next free address");
    assert_eq!(b"10.10.0.6".to_vec(), format_ip(&next_addr));
    addrs.push(v4(10, 10, 0, 6));
    addrs.push(v4(10, 10, 0, 10));

    let next_addr = cloud_init_ext::ip::next_free_addr_v4(&addrs, &base())
        .expect("Unable to compute next free address");
    assert_eq!(b"10.10.0.7".to_vec(), format_ip(&next_addr));
}

#[test]
fn gap_after_longer_run() {
    let addrs = vec![
        v4(10, 10, 0, 1),
        v4(10, 10, 0, 2),
        v4(10, 10, 0, 3),
        v4(10, 10, 0, 4),
        v4(10, 10, 0, 5),
        v4(10, 10, 0, 6),
        v4(10, 10, 0, 10),
    ];
    let next = cloud_init_ext::ip::next_free_addr_v4(&addrs, &base()).unwrap();
    assert_eq!(next, Ip::new(10, 10, 0, 7));
}

#[test]
fn contiguous_run_extends() {
    let addrs = vec![
        v4(192, 168, 7, 1),
        v4(192, 168, 7, 2),
        v4(192, 168, 7, 3),
        v4(192, 168, 7, 4),
        v4(192, 168, 7, 5),
        v4(192, 168, 7, 6),
    ];
    let next = cloud_init_ext::ip::next_free_addr_v4(&addrs, &base()).unwrap();
    assert_eq!(next, Ip::new(192, 168, 7, 7));
}

#[test]
fn empty_pool_gives_first_address() {
    let addrs: Vec<IpAddress> = Vec::new();
    let next = cloud_init_ext::ip::next_free_addr_v4(&addrs, &Ip::new(10, 10, 0, 0)).unwrap();
    assert_eq!(next, Ip::new(10, 10, 0, 1));
}

#[test]
fn full_pool_is_exhausted() {
    let mut addrs = Vec::new();
    for d in 1..=254u8 {
        addrs.push(v4(10, 10, 0, d));
    }
    assert_eq!(cloud_init_ext::ip::next_free_addr_v4(&addrs, &base()), Err(ServiceError::PoolExhausted));
}

#[test]
fn ceiling_without_trailing_gap_is_exhausted() {
    let addrs = vec![v4(10, 10, 0, 254)];
    assert_eq!(cloud_init_ext::ip::next_free_addr_v4(&addrs, &base()), Err(ServiceError::PoolExhausted));
}

#[test]
fn non_ipv4_member_is_rejected_first() {
    let addrs = vec![v4(10, 10, 0, 1), IpAddress::V6, v4(10, 10, 0, 4)];
    assert_eq!(cloud_init_ext::ip::next_free_addr_v4(&addrs, &base()), Err(ServiceError::UnsupportedAddressFamily));
}

#[test]
fn unordered_input_is_handled() {
    let addrs = vec![v4(10, 10, 0, 5), v4(10, 10, 0, 1), v4(10, 10, 0, 2), v4(10, 10, 0, 4)];
    let next = cloud_init_ext::ip::next_free_addr_v4(&addrs, &base()).unwrap();
    assert_eq!(next, Ip::new(10, 10, 0, 3));
}

#[test]
fn format_renders_all_octet_widths() {
    assert_eq!(format_ip(&Ip::new(0, 7, 42, 255)), b"0.7.42.255".to_vec());
    assert_eq!(format_ip(&Ip::new(100, 10, 1, 254)), b"100.10.1.254".to_vec());
}

#[test]
fn parse_accepts_canonical_text() {
    assert_eq!(parse_ip(&b"10.10.0.3".to_vec()), Ok(IpAddress::V4(Ip::new(10, 10, 0, 3))));
    assert_eq!(parse_ip(&b"0.0.0.0".to_vec()), Ok(IpAddress::V4(Ip::new(0, 0, 0, 0))));
    assert_eq!(parse_ip(&b"255.255.255.255".to_vec()), Ok(IpAddress::V4(Ip::new(255, 255, 255, 255))));
}

#[test]
fn parse_round_trips_format() {
    let ip = Ip::new(172, 16, 254, 9);
    assert_eq!(parse_ip(&format_ip(&ip)), Ok(IpAddress::V4(ip)));
}

#[test]
fn parse_classifies_ipv6_text() {
    assert_eq!(parse_ip(&b"fe80::1".to_vec()), Ok(IpAddress::V6));
    assert_eq!(parse_ip(&b"::ffff:10.10.0.1".to_vec()), Ok(IpAddress::V6));
}

#[test]
fn parse_rejects_malformed_text() {
    assert_eq!(parse_ip(&b"".to_vec()), Err(ServiceError::InvalidAddress));
    assert_eq!(parse_ip(&b"10.10.0".to_vec()), Err(ServiceError::InvalidAddress));
    assert_eq!(parse_ip(&b"10.10.0.3.4".to_vec()), Err(ServiceError::InvalidAddress));
    assert_eq!(parse_ip(&b"010.10.0.3".to_vec()), Err(ServiceError::InvalidAddress));
    assert_eq!(parse_ip(&b"256.1.1.1".to_vec()), Err(ServiceError::InvalidAddress));
    assert_eq!(parse_ip(&b"10.10.0.x".to_vec()), Err(ServiceError::InvalidAddress));
}
