use std::cmp::Ordering;
use hyper_dns::client::connect::dns::{
    cost_update_fits, delays_fit_for, get_addrs_by_uri, get_custom_addr, get_sorted_addrs, insert_domain_sorted_addrs,
    remove_custom_addr, remove_old_domain_sorted_addrs, set_custom_addr,
    update_domain_sorted_addr_cost, AddrSource, CustomAddrTable, DomainAddrTable, GaiAddrs,
    IpAddrs, Name, SocketAddrWithDelayTime, SortedAddr, TokioThreadpoolGaiResolver,
    IP_FRAGMENT_PREFIX, RERANK_FRAGMENT,
};
use hyper_dns::net::{IpAddr, SocketAddr};

fn v4(a: u8, b: u8, c: u8, d: u8, port: u16) -> SocketAddr {
    SocketAddr::new(IpAddr::from_octets(a, b, c, d), port)
}

fn v6(segments: [u16; 8], port: u16) -> SocketAddr {
    SocketAddr::new(IpAddr::from_segments(segments), port)
}

#[test]
fn test_ip_addrs_split_by_preference() {
    let v4_addr = v4(127, 0, 0, 1, 80);
    let v6_addr = v6([0, 0, 0, 0, 0, 0, 0, 1], 80);

    let (mut preferred, mut fallback) = IpAddrs::new(vec![v4_addr, v6_addr]).split_by_preference();
    assert!(preferred.next().unwrap().is_ipv4());
    assert!(fallback.next().unwrap().is_ipv6());

    let (mut preferred, mut fallback) = IpAddrs::new(vec![v6_addr, v4_addr]).split_by_preference();
    assert!(preferred.next().unwrap().is_ipv6());
    assert!(fallback.next().unwrap().is_ipv4());
}

#[test]
fn split_keeps_order_within_each_family() {
    let a = v4(10, 0, 0, 1, 1);
    let b = v6([1, 0, 0, 0, 0, 0, 0, 2], 2);
    let c = v4(10, 0, 0, 3, 3);
    let d = v6([1, 0, 0, 0, 0, 0, 0, 4], 4);
    let (mut preferred, mut fallback) = IpAddrs::new(vec![a, b, c, d]).split_by_preference();
    assert_eq!(preferred.next(), Some(a));
    assert_eq!(preferred.next(), Some(c));
    assert_eq!(preferred.next(), None);
    assert_eq!(fallback.next(), Some(b));
    assert_eq!(fallback.next(), Some(d));
    assert_eq!(fallback.next(), None);
}

#[test]
fn split_of_nothing_is_nothing() {
    let (preferred, fallback) = IpAddrs::new(vec![]).split_by_preference();
    assert!(preferred.is_empty());
    assert!(fallback.is_empty());
}

#[test]
fn ip_addrs_next_drains_in_order() {
    let a = v4(1, 2, 3, 4, 5);
    let b = v4(5, 6, 7, 8, 9);
    let mut addrs = IpAddrs::new(vec![a, b]);
    assert!(!addrs.is_empty());
    assert_eq!(addrs.next(), Some(a));
    assert_eq!(addrs.next(), Some(b));
    assert!(addrs.is_empty());
    assert_eq!(addrs.next(), None);
}

#[test]
fn try_parse_ipv4_literal() {
    let mut addrs = IpAddrs::try_parse("192.168.1.20", 8080).unwrap();
    assert_eq!(addrs.next(), Some(v4(192, 168, 1, 20, 8080)));
    assert_eq!(addrs.next(), None);
}

#[test]
fn try_parse_ipv6_literal() {
    let mut addrs = IpAddrs::try_parse("::1", 443).unwrap();
    assert_eq!(addrs.next(), Some(v6([0, 0, 0, 0, 0, 0, 0, 1], 443)));
    let mut addrs = IpAddrs::try_parse("2001:db8::8a2e:370:7334", 1).unwrap();
    assert_eq!(addrs.next(), Some(v6([0x2001, 0xdb8, 0, 0, 0, 0x8a2e, 0x370, 0x7334], 1)));
    let mut addrs = IpAddrs::try_parse("::ffff:192.0.2.128", 2).unwrap();
    assert_eq!(addrs.next(), Some(v6([0, 0, 0, 0, 0, 0xffff, 0xc000, 0x0280], 2)));
    let mut addrs = IpAddrs::try_parse("1:2:3:4:5:6:7:8", 3).unwrap();
    assert_eq!(addrs.next(), Some(v6([1, 2, 3, 4, 5, 6, 7, 8], 3)));
    let mut addrs = IpAddrs::try_parse("1:2:3:4:5:6:7::", 4).unwrap();
    assert_eq!(addrs.next(), Some(v6([1, 2, 3, 4, 5, 6, 7, 0], 4)));
    let mut addrs = IpAddrs::try_parse("ABCD:ef01::", 5).unwrap();
    assert_eq!(addrs.next(), Some(v6([0xabcd, 0xef01, 0, 0, 0, 0, 0, 0], 5)));
    let mut addrs = IpAddrs::try_parse("::", 6).unwrap();
    assert_eq!(addrs.next(), Some(v6([0; 8], 6)));
    let mut addrs = IpAddrs::try_parse("1:2:3:4:5:6:1.2.3.4", 7).unwrap();
    assert_eq!(addrs.next(), Some(v6([1, 2, 3, 4, 5, 6, 0x0102, 0x0304], 7)));
}

#[test]
fn try_parse_rejects_other_hosts() {
    for host in [
        "example.com",
        "",
        "1.2.3",
        "1.2.3.4.5",
        "256.1.1.1",
        "01.2.3.4",
        "1..2.3",
        "1.2.3.4 ",
        ":::",
        "1::2::3",
        "12345::",
        "1:2:3:4:5:6:7:8:9",
        "1:2:3:4:5:6:7",
        "1.2.3.4::",
        "::1.2.3",
        "1:2:3:4:5:6:7:1.2.3.4",
        "g::1",
        ":1:2:3:4:5:6:7",
    ] {
        assert!(IpAddrs::try_parse(host, 80).is_none(), "{}", host);
    }
}

#[test]
fn try_parse_accepts_zero_octets() {
    let mut addrs = IpAddrs::try_parse("0.0.0.0", 1).unwrap();
    assert_eq!(addrs.next(), Some(v4(0, 0, 0, 0, 1)));
    let mut addrs = IpAddrs::try_parse("255.255.255.255", 2).unwrap();
    assert_eq!(addrs.next(), Some(v4(255, 255, 255, 255, 2)));
}

#[test]
fn gai_addrs_yields_ips() {
    let mut addrs = GaiAddrs::new(IpAddrs::new(vec![v4(9, 8, 7, 6, 5), v6([1; 8], 6)]));
    assert_eq!(addrs.next(), Some(IpAddr::from_octets(9, 8, 7, 6)));
    assert_eq!(addrs.next(), Some(IpAddr::from_segments([1; 8])));
    assert_eq!(addrs.next(), None);
}

#[test]
fn name_as_str() {
    let name = Name::new("example.com".to_string());
    assert_eq!(name.as_str(), "example.com");
    let future = TokioThreadpoolGaiResolver::new().resolve(name);
    assert_eq!(future.name_ref().as_str(), "example.com");
}

#[test]
fn custom_addr_set_found_and_removed() {
    let mut table = CustomAddrTable::new();
    set_custom_addr(&mut table, "a.com".to_string(), "10.1.2.3");
    assert_eq!(get_custom_addr(&table, "a.com"), Some(v4(10, 1, 2, 3, 443)));
    let mut addrs = IpAddrs::try_parse_custom(&table, "a.com", 8443).unwrap();
    assert_eq!(addrs.next(), Some(v4(10, 1, 2, 3, 8443)));
    let mut addrs = IpAddrs::try_parse_custom(&table, "a.com", 443).unwrap();
    assert_eq!(addrs.next(), Some(v4(10, 1, 2, 3, 443)));
    assert!(IpAddrs::try_parse_custom(&table, "b.com", 443).is_none());
    set_custom_addr(&mut table, "a.com".to_string(), "not an ip");
    assert_eq!(get_custom_addr(&table, "a.com"), Some(v4(10, 1, 2, 3, 443)));
    set_custom_addr(&mut table, "a.com".to_string(), "10.9.9.9");
    assert_eq!(get_custom_addr(&table, "a.com"), Some(v4(10, 9, 9, 9, 443)));
    remove_custom_addr(&mut table, "a.com");
    assert_eq!(get_custom_addr(&table, "a.com"), None);
}

#[test]
fn custom_addr_ignores_ipv6() {
    let mut table = CustomAddrTable::new();
    set_custom_addr(&mut table, "a.com".to_string(), "::1");
    assert_eq!(get_custom_addr(&table, "a.com"), None);
}

#[test]
fn addrs_by_uri_fragment() {
    let fragment = format!("{}1.2.3.4+req1", IP_FRAGMENT_PREFIX);
    assert_eq!(get_addrs_by_uri(Some(&fragment), Some("http")), Some(v4(1, 2, 3, 4, 80)));
    assert_eq!(get_addrs_by_uri(Some(&fragment), Some("https")), Some(v4(1, 2, 3, 4, 443)));
    assert_eq!(get_addrs_by_uri(Some(&fragment), None), Some(v4(1, 2, 3, 4, 443)));
    assert_eq!(get_addrs_by_uri(Some("430BB5C318_ip:5.6.7.8:99"), Some("http")), Some(v4(5, 6, 7, 8, 80)));
    assert_eq!(get_addrs_by_uri(Some("other:1.2.3.4"), Some("http")), None);
    assert_eq!(get_addrs_by_uri(Some("430BB5C318_ip:nothing"), Some("http")), None);
    assert_eq!(get_addrs_by_uri(Some(RERANK_FRAGMENT), None), None);
    assert_eq!(get_addrs_by_uri(None, Some("http")), None);
}

fn addr(a: u8, source: AddrSource) -> SortedAddr {
    SortedAddr::new(IpAddr::from_octets(10, 0, 0, a), source)
}

#[test]
fn sorted_addrs_of_unknown_domain() {
    let table = DomainAddrTable::new();
    let first = v4(1, 1, 1, 1, 443);
    let r = get_sorted_addrs(&table, "x.com", first);
    assert_eq!(r, vec![SocketAddrWithDelayTime { addr: first, delay_time: 0, source: AddrSource::LocalDNS }]);
}

#[test]
fn sorted_addrs_with_one_known() {
    let mut table = DomainAddrTable::new();
    insert_domain_sorted_addrs(&mut table, "x.com".to_string(), vec![addr(5, AddrSource::HttpDNS)], AddrSource::HttpDNS);
    let first = v4(1, 1, 1, 1, 8080);
    let r = get_sorted_addrs(&table, "x.com", first);
    assert_eq!(r.len(), 3);
    assert_eq!(r[0], SocketAddrWithDelayTime { addr: first, delay_time: 0, source: AddrSource::LocalDNS });
    assert_eq!(r[1], SocketAddrWithDelayTime { addr: v4(10, 0, 0, 5, 8080), delay_time: 300, source: AddrSource::HttpDNS });
    assert_eq!(r[2], SocketAddrWithDelayTime { addr: first, delay_time: 600, source: AddrSource::LocalDNS });
}

#[test]
fn sorted_addrs_rank_by_cost() {
    let mut table = DomainAddrTable::new();
    insert_domain_sorted_addrs(
        &mut table,
        "x.com".to_string(),
        vec![addr(3, AddrSource::LocalDNS), addr(1, AddrSource::LocalDNS), addr(2, AddrSource::LocalDNS)],
        AddrSource::LocalDNS,
    );
    update_domain_sorted_addr_cost(&mut table, "x.com", IpAddr::from_octets(10, 0, 0, 3), 100);
    update_domain_sorted_addr_cost(&mut table, "x.com", IpAddr::from_octets(10, 0, 0, 2), 200);
    let first = v4(1, 1, 1, 1, 80);
    let r = get_sorted_addrs(&table, "x.com", first);
    assert_eq!(r[1], SocketAddrWithDelayTime { addr: v4(10, 0, 0, 3, 80), delay_time: 350, source: AddrSource::LocalDNS });
    assert_eq!(r[2], SocketAddrWithDelayTime { addr: v4(10, 0, 0, 2, 80), delay_time: 900, source: AddrSource::LocalDNS });
}

#[test]
fn sorted_addrs_unused_rank_by_source_then_address() {
    let mut table = DomainAddrTable::new();
    insert_domain_sorted_addrs(&mut table, "x.com".to_string(), vec![addr(1, AddrSource::LocalDNS)], AddrSource::LocalDNS);
    insert_domain_sorted_addrs(
        &mut table,
        "x.com".to_string(),
        vec![addr(9, AddrSource::HttpDNS), addr(8, AddrSource::HttpDNS)],
        AddrSource::HttpDNS,
    );
    let first = v4(1, 1, 1, 1, 80);
    let r = get_sorted_addrs(&table, "x.com", first);
    assert_eq!(r[1].addr, v4(10, 0, 0, 8, 80));
    assert_eq!(r[1].source, AddrSource::HttpDNS);
    assert_eq!(r[2].addr, v4(10, 0, 0, 9, 80));
    assert_eq!(r[2].delay_time, 600);
}

#[test]
fn costs_keep_the_last_three() {
    let mut table = DomainAddrTable::new();
    insert_domain_sorted_addrs(&mut table, "x.com".to_string(), vec![addr(1, AddrSource::LocalDNS)], AddrSource::LocalDNS);
    for cost in [1000, 1000, 10, 20, 30] {
        update_domain_sorted_addr_cost(&mut table, "x.com", IpAddr::from_octets(10, 0, 0, 1), cost);
    }
    let r = get_sorted_addrs(&table, "x.com", v4(1, 1, 1, 1, 80));
    assert_eq!(r[1].delay_time, 300);
    update_domain_sorted_addr_cost(&mut table, "x.com", IpAddr::from_octets(10, 0, 0, 1), 400);
    let r = get_sorted_addrs(&table, "x.com", v4(1, 1, 1, 1, 80));
    assert_eq!(r[1].delay_time, 400);
    assert_eq!(r[2].delay_time, 800);
}

#[test]
fn average_cost_rounds_toward_zero() {
    let mut table = DomainAddrTable::new();
    insert_domain_sorted_addrs(&mut table, "x.com".to_string(), vec![addr(1, AddrSource::LocalDNS)], AddrSource::LocalDNS);
    update_domain_sorted_addr_cost(&mut table, "x.com", IpAddr::from_octets(10, 0, 0, 1), -500);
    update_domain_sorted_addr_cost(&mut table, "x.com", IpAddr::from_octets(10, 0, 0, 1), -1);
    let r = get_sorted_addrs(&table, "x.com", v4(1, 1, 1, 1, 80));
    assert_eq!(r[1].delay_time, 300);
    assert_eq!(r[2].delay_time, 600);
}

#[test]
fn update_of_unknown_changes_nothing() {
    let mut table = DomainAddrTable::new();
    update_domain_sorted_addr_cost(&mut table, "x.com", IpAddr::from_octets(10, 0, 0, 1), 5);
    let r = get_sorted_addrs(&table, "x.com", v4(1, 1, 1, 1, 80));
    assert_eq!(r.len(), 1);
    insert_domain_sorted_addrs(&mut table, "x.com".to_string(), vec![addr(1, AddrSource::LocalDNS)], AddrSource::LocalDNS);
    update_domain_sorted_addr_cost(&mut table, "x.com", IpAddr::from_octets(10, 0, 0, 2), 5);
    let r = get_sorted_addrs(&table, "x.com", v4(1, 1, 1, 1, 80));
    assert_eq!(r[1].delay_time, 300);
}

#[test]
fn insert_keeps_four_lowest() {
    let mut table = DomainAddrTable::new();
    insert_domain_sorted_addrs(
        &mut table,
        "x.com".to_string(),
        vec![
            addr(6, AddrSource::HttpDNS),
            addr(2, AddrSource::HttpDNS),
            addr(5, AddrSource::HttpDNS),
            addr(1, AddrSource::HttpDNS),
            addr(4, AddrSource::HttpDNS),
            addr(3, AddrSource::HttpDNS),
        ],
        AddrSource::HttpDNS,
    );
    let removed = remove_old_domain_sorted_addrs(&mut table, &"x.com".to_string(), AddrSource::HttpDNS);
    let ips: Vec<IpAddr> = removed.iter().map(|a| a.addr()).collect();
    assert_eq!(
        ips,
        vec![
            IpAddr::from_octets(10, 0, 0, 1),
            IpAddr::from_octets(10, 0, 0, 2),
            IpAddr::from_octets(10, 0, 0, 3),
            IpAddr::from_octets(10, 0, 0, 4),
        ]
    );
    let again = remove_old_domain_sorted_addrs(&mut table, &"x.com".to_string(), AddrSource::HttpDNS);
    assert!(again.is_empty());
}

#[test]
fn insert_replaces_same_source_and_keeps_others() {
    let mut table = DomainAddrTable::new();
    insert_domain_sorted_addrs(&mut table, "x.com".to_string(), vec![addr(1, AddrSource::LocalDNS), addr(2, AddrSource::LocalDNS)], AddrSource::LocalDNS);
    insert_domain_sorted_addrs(&mut table, "x.com".to_string(), vec![addr(2, AddrSource::HttpDNS), addr(3, AddrSource::HttpDNS)], AddrSource::HttpDNS);
    insert_domain_sorted_addrs(&mut table, "x.com".to_string(), vec![addr(7, AddrSource::LocalDNS)], AddrSource::LocalDNS);
    let local = remove_old_domain_sorted_addrs(&mut table, &"x.com".to_string(), AddrSource::LocalDNS);
    assert_eq!(local.len(), 1);
    assert_eq!(local[0].addr(), IpAddr::from_octets(10, 0, 0, 7));
    let http = remove_old_domain_sorted_addrs(&mut table, &"x.com".to_string(), AddrSource::HttpDNS);
    let ips: Vec<IpAddr> = http.iter().map(|a| a.addr()).collect();
    assert_eq!(ips, vec![IpAddr::from_octets(10, 0, 0, 3)]);
}

#[test]
fn insert_keeps_existing_record_of_same_address() {
    let mut table = DomainAddrTable::new();
    insert_domain_sorted_addrs(&mut table, "x.com".to_string(), vec![addr(1, AddrSource::HttpDNS)], AddrSource::HttpDNS);
    update_domain_sorted_addr_cost(&mut table, "x.com", IpAddr::from_octets(10, 0, 0, 1), 50);
    insert_domain_sorted_addrs(&mut table, "x.com".to_string(), vec![addr(1, AddrSource::LocalDNS), addr(1, AddrSource::LocalDNS)], AddrSource::LocalDNS);
    let local = remove_old_domain_sorted_addrs(&mut table, &"x.com".to_string(), AddrSource::LocalDNS);
    assert!(local.is_empty());
    let r = get_sorted_addrs(&table, "x.com", v4(1, 1, 1, 1, 80));
    assert_eq!(r.len(), 3);
    assert_eq!(r[1].source, AddrSource::HttpDNS);
    assert_eq!(r[1].delay_time, 300);
}

#[test]
fn insert_of_nothing_creates_empty_entry() {
    let mut table = DomainAddrTable::new();
    insert_domain_sorted_addrs(&mut table, "x.com".to_string(), vec![], AddrSource::LocalDNS);
    let r = get_sorted_addrs(&table, "x.com", v4(1, 1, 1, 1, 80));
    assert_eq!(r.len(), 1);
    assert!(remove_old_domain_sorted_addrs(&mut table, &"x.com".to_string(), AddrSource::LocalDNS).is_empty());
}

#[test]
fn ranking_cmp_orders_addresses() {
    let a = addr(1, AddrSource::LocalDNS);
    let b = addr(2, AddrSource::LocalDNS);
    let c = addr(2, AddrSource::HttpDNS);
    assert_eq!(a.cmp(&b), Ordering::Less);
    assert_eq!(b.cmp(&a), Ordering::Greater);
    assert_eq!(c.cmp(&a), Ordering::Less);
    assert_eq!(b.cmp(&c), Ordering::Equal);
    assert!(a.precedes(&b));
    assert!(!a.same_as(&b));
    assert!(b.same_as(&addr(2, AddrSource::LocalDNS)));
    let used = a.with_cost(10);
    assert_eq!(used.cmp(&c), Ordering::Less);
}

#[test]
fn large_costs_recorded_for_a_lone_address() {
    let mut table = DomainAddrTable::new();
    insert_domain_sorted_addrs(&mut table, "x.com".to_string(), vec![addr(1, AddrSource::LocalDNS)], AddrSource::LocalDNS);
    let ip = IpAddr::from_octets(10, 0, 0, 1);
    assert!(cost_update_fits(&table, "x.com", ip, 2_000_000_000));
    update_domain_sorted_addr_cost(&mut table, "x.com", ip, 2_000_000_000);
    assert!(delays_fit_for(&table, "x.com"));
    assert!(cost_update_fits(&table, "x.com", ip, 2_000_000_000));
    update_domain_sorted_addr_cost(&mut table, "x.com", ip, 2_000_000_000);
    // The two costs no longer sum to an i32, so no delay can be computed.
    assert!(!delays_fit_for(&table, "x.com"));
}

#[test]
fn large_costs_refused_beside_another_address() {
    let mut table = DomainAddrTable::new();
    insert_domain_sorted_addrs(
        &mut table,
        "x.com".to_string(),
        vec![addr(1, AddrSource::LocalDNS), addr(2, AddrSource::LocalDNS)],
        AddrSource::LocalDNS,
    );
    let ip = IpAddr::from_octets(10, 0, 0, 1);
    update_domain_sorted_addr_cost(&mut table, "x.com", ip, 2_000_000_000);
    assert!(!cost_update_fits(&table, "x.com", ip, 2_000_000_000));
    assert!(cost_update_fits(&table, "x.com", ip, 100));
}

#[test]
fn measured_address_ranks_before_unmeasured() {
    let mut table = DomainAddrTable::new();
    insert_domain_sorted_addrs(
        &mut table,
        "x.com".to_string(),
        vec![addr(1, AddrSource::HttpDNS), addr(9, AddrSource::LocalDNS)],
        AddrSource::HttpDNS,
    );
    update_domain_sorted_addr_cost(&mut table, "x.com", IpAddr::from_octets(10, 0, 0, 9), 2_000_000_000);
    let r = get_sorted_addrs(&table, "x.com", v4(1, 1, 1, 1, 80));
    assert_eq!(r[1].addr, v4(10, 0, 0, 9, 80));
    assert_eq!(r[2].addr, v4(10, 0, 0, 1, 80));
}

#[test]
fn sorted_addrs_lookup_reads_only() {
    let mut table = DomainAddrTable::new();
    insert_domain_sorted_addrs(&mut table, "x.com".to_string(), vec![addr(4, AddrSource::LocalDNS)], AddrSource::LocalDNS);
    let first = v4(1, 1, 1, 1, 80);
    let a = get_sorted_addrs(&table, "x.com", first);
    let b = get_sorted_addrs(&table, "x.com", first);
    assert_eq!(a, b);
    insert_domain_sorted_addrs(&mut table, "y.com".to_string(), vec![addr(5, AddrSource::LocalDNS)], AddrSource::LocalDNS);
    assert_eq!(get_sorted_addrs(&table, "x.com", first), a);
}

#[test]
fn sorted_addr_clone_keeps_record() {
    let a = addr(7, AddrSource::HttpDNS).with_cost(40);
    let b = a.clone();
    assert_eq!(a, b);
    assert_eq!(b.addr(), IpAddr::from_octets(10, 0, 0, 7));
    assert_eq!(b.source(), AddrSource::HttpDNS);
}
