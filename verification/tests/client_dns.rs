use hyper_dns::client::connect::dns::CustomAddrTable;
use hyper_dns::client::dns::{
    get_addrs_by_uri, is_reranking, remove_custom_addr, set_custom_addr, IpAddrs, Work,
    RERANK_FRAGMENT,
};
use hyper_dns::net::{IpAddr, SocketAddr};

fn v4(a: u8, b: u8, c: u8, d: u8, port: u16) -> SocketAddr {
    SocketAddr::new(IpAddr::from_octets(a, b, c, d), port)
}

#[test]
fn work_holds_host_and_port() {
    let work = Work::new("example.com".to_string(), 8080);
    assert_eq!(work.host_str(), "example.com");
    assert_eq!(work.port_num(), 8080);
}

#[test]
fn plain_try_parse_literals() {
    let mut addrs = IpAddrs::try_parse("127.0.0.1", 80).unwrap();
    assert_eq!(addrs.next(), Some(v4(127, 0, 0, 1, 80)));
    assert_eq!(addrs.next(), None);
    let mut addrs = IpAddrs::try_parse("fe80::1", 81).unwrap();
    assert_eq!(addrs.next(), Some(SocketAddr::new(IpAddr::from_segments([0xfe80, 0, 0, 0, 0, 0, 0, 1]), 81)));
    assert!(IpAddrs::try_parse("localhost", 80).is_none());
}

#[test]
fn plain_custom_addrs() {
    let mut table = CustomAddrTable::new();
    set_custom_addr(&mut table, "a.com".to_string(), "8.8.8.8");
    let mut addrs = IpAddrs::try_parse_custom(&table, "a.com", false).unwrap();
    assert_eq!(addrs.next(), Some(v4(8, 8, 8, 8, 443)));
    assert!(IpAddrs::try_parse_custom(&table, "a.com", true).is_none());
    assert!(IpAddrs::try_parse_custom(&table, "b.com", false).is_none());
    remove_custom_addr(&mut table, "a.com");
    assert!(IpAddrs::try_parse_custom(&table, "a.com", false).is_none());
}

#[test]
fn plain_addrs_by_uri() {
    assert_eq!(get_addrs_by_uri(Some("430BB5C318_ip:1.2.3.4")), Some(v4(1, 2, 3, 4, 443)));
    assert_eq!(get_addrs_by_uri(Some("430BB5C318_ip:1.2.3.4:55")), Some(v4(1, 2, 3, 4, 443)));
    assert_eq!(get_addrs_by_uri(Some("430BB5C318_ip:1.2.3.4+r")), None);
    assert_eq!(get_addrs_by_uri(Some("430BB5C318_ip"), ), None);
    assert_eq!(get_addrs_by_uri(None), None);
}

#[test]
fn reranking_fragment() {
    assert!(is_reranking(Some(RERANK_FRAGMENT)));
    assert!(is_reranking(Some("947afd3b7a_rerank")));
    assert!(!is_reranking(Some("947afd3b7a_rerank+x")));
    assert!(!is_reranking(None));
}

#[test]
fn plain_ip_addrs_from_vec() {
    let mut addrs = IpAddrs::from_vec(vec![v4(1, 1, 1, 1, 1), v4(2, 2, 2, 2, 2)]);
    assert_eq!(addrs.next(), Some(v4(1, 1, 1, 1, 1)));
    assert_eq!(addrs.next(), Some(v4(2, 2, 2, 2, 2)));
    assert_eq!(addrs.next(), None);
    let mut one = IpAddrs::new(v4(3, 3, 3, 3, 3));
    assert_eq!(one.next(), Some(v4(3, 3, 3, 3, 3)));
}
