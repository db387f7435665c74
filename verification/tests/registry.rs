use cloud_init_ext::error::ServiceError;
use cloud_init_ext::ip::{ClientRegistration, Ip, IpService};

fn row(text: &[u8], host: &str) -> ClientRegistration {
    ClientRegistration { ip: text.to_vec(), hostname: host.to_string() }
}

#[test]
fn register_appends_a_row() {
    let mut svc = IpService::new();
    svc.register(&Ip::new(10, 10, 0, 3), "node-7").unwrap();
    assert_eq!(svc.rows.len(), 1);
    assert_eq!(svc.rows[0].ip, b"10.10.0.3".to_vec());
    assert_eq!(svc.rows[0].hostname, "node-7".to_string());
}

#[test]
fn register_refuses_a_duplicate_address() {
    let mut svc = IpService::new();
    svc.register(&Ip::new(10, 10, 0, 3), "node-7").unwrap();
    let second = svc.register(&Ip::new(10, 10, 0, 3), "node-8");
    assert_eq!(second, Err(ServiceError::DuplicateAddress));
    assert_eq!(svc.rows.len(), 1);
}

#[test]
fn allocation_skips_registered_addresses() {
    let mut svc = IpService::new();
    svc.register(&Ip::new(10, 10, 0, 1), "a").unwrap();
    svc.register(&Ip::new(10, 10, 0, 2), "b").unwrap();
    svc.register(&Ip::new(10, 10, 0, 4), "c").unwrap();
    let next = svc.get_next_available_ip(&Ip::new(10, 10, 0, 0)).unwrap();
    assert_eq!(next, Ip::new(10, 10, 0, 3));
}

#[test]
fn allocation_on_empty_registry_uses_the_base() {
    let svc = IpService::new();
    let next = svc.get_next_available_ip(&Ip::new(10, 10, 0, 0)).unwrap();
    assert_eq!(next, Ip::new(10, 10, 0, 1));
}

#[test]
fn allocation_rejects_an_ipv6_row() {
    let svc = IpService { rows: vec![row(b"10.10.0.1", "a"), row(b"fe80::1", "b")] };
    assert_eq!(
        svc.get_next_available_ip(&Ip::new(10, 10, 0, 0)),
        Err(ServiceError::UnsupportedAddressFamily)
    );
}

#[test]
fn allocation_rejects_an_unreadable_row() {
    let svc = IpService { rows: vec![row(b"not-an-address", "a")] };
    assert_eq!(
        svc.get_next_available_ip(&Ip::new(10, 10, 0, 0)),
        Err(ServiceError::InvalidAddress)
    );
}
