use hyper_dns::info::{
    get_connection_begin_ts, get_dns_info, get_req_finished_ts, get_res_begin_ts,
    get_res_header_finished_ts, get_res_header_length, get_send_req_ts, get_tls_info,
    get_transport_info, get_uri_req_id, set_connection_begin_ts, set_dns_info,
    set_req_finished_ts, set_res_begin_ts, set_res_header_finished_ts, set_res_header_length,
    set_send_req_ts, set_tls_info, set_transport_info, set_connection_begin_ts_at,
    set_req_finished_ts_at, set_res_begin_ts_at, set_res_header_finished_ts_at, AddrResolveType, DnsInfo, RequestInfo,
    TlsInfo, TransportInfo, DEFAULT_REQ_ID,
};
use std::time::{Duration, Instant};

#[test]
fn req_id_is_last_part_of_fragment() {
    assert_eq!(get_uri_req_id(Some("a+b+c")), "c");
    assert_eq!(get_uri_req_id(Some("abc")), "abc");
    assert_eq!(get_uri_req_id(Some("a+")), "");
    assert_eq!(get_uri_req_id(Some("430BB5C318_ip:1.2.3.4+asdfasdasdf")), "asdfasdasdf");
    assert_eq!(get_uri_req_id(None), DEFAULT_REQ_ID);
    assert_eq!(get_uri_req_id(None), "default");
}

#[test]
fn timestamps_read_back() {
    let mut info = RequestInfo::new();
    let t = Instant::now();
    assert_eq!(get_send_req_ts(&info, "r1"), None);
    set_send_req_ts(&mut info, "r1".to_string(), t);
    assert_eq!(get_send_req_ts(&info, "r1"), Some(t));
    assert_eq!(get_send_req_ts(&info, "r2"), None);
    let later = t + Duration::from_millis(5);
    set_send_req_ts(&mut info, "r1".to_string(), later);
    assert_eq!(get_send_req_ts(&info, "r1"), Some(later));

    assert_eq!(get_connection_begin_ts(&info, "r1"), None);
    set_connection_begin_ts(&mut info, "r1".to_string());
    assert!(get_connection_begin_ts(&info, "r1").is_some());

    assert_eq!(get_req_finished_ts(&info), None);
    set_req_finished_ts(&mut info);
    assert!(get_req_finished_ts(&info).is_some());
    set_res_begin_ts(&mut info);
    assert!(get_res_begin_ts(&info).is_some());
    set_res_header_finished_ts(&mut info);
    assert!(get_res_header_finished_ts(&info).is_some());
    assert_eq!(get_res_header_length(&info), None);
    set_res_header_length(&mut info, 321);
    assert_eq!(get_res_header_length(&info), Some(321));
}

#[test]
fn records_read_back() {
    let mut info = RequestInfo::new();
    let dns = DnsInfo::new(AddrResolveType::Cached);
    set_dns_info(&mut info, "r".to_string(), dns);
    assert_eq!(get_dns_info(&info, "r").unwrap().addr_resolve_type, AddrResolveType::Cached);
    assert!(get_dns_info(&info, "s").is_none());

    let now = Instant::now();
    let tls = TlsInfo {
        alpn: Some("h2".to_string()),
        protocol_version: None,
        cipher_suite: Some("x".to_string()),
        finished_ts: now,
    };
    set_tls_info(&mut info, "r".to_string(), tls);
    let got = get_tls_info(&info, "r").unwrap();
    assert_eq!(got.alpn.as_deref(), Some("h2"));
    assert_eq!(got.cipher_suite.as_deref(), Some("x"));
    assert!(get_tls_info(&info, "s").is_none());

    let transport = TransportInfo {
        req_finished_ts: now,
        res_begin_ts: now,
        res_header_finished_ts: now,
        res_header_length: 7,
    };
    set_transport_info(&mut info, "r".to_string(), transport);
    assert_eq!(get_transport_info(&info, "r").unwrap().res_header_length, 7);
    assert!(get_transport_info(&info, "t").is_none());
}

#[test]
fn timestamps_given_are_recorded() {
    let mut info = RequestInfo::new();
    let t = Instant::now();
    let t1 = t + Duration::from_millis(1);
    let t2 = t + Duration::from_millis(2);
    let t3 = t + Duration::from_millis(3);
    set_connection_begin_ts_at(&mut info, "r1".to_string(), t);
    assert_eq!(get_connection_begin_ts(&info, "r1"), Some(t));
    assert_eq!(get_connection_begin_ts(&info, "r2"), None);
    set_req_finished_ts_at(&mut info, t1);
    set_res_begin_ts_at(&mut info, t2);
    set_res_header_finished_ts_at(&mut info, t3);
    assert_eq!(get_req_finished_ts(&info), Some(t1));
    assert_eq!(get_res_begin_ts(&info), Some(t2));
    assert_eq!(get_res_header_finished_ts(&info), Some(t3));
    let d = DnsInfo::finished_at(AddrResolveType::Cached, t2);
    assert_eq!(d.addr_resolve_type, AddrResolveType::Cached);
    assert_eq!(d.finished_ts, t2);
}
