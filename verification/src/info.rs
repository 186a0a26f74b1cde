//! Information gathered about each request and its connection, kept per
//! request identifier, and the request identifier carried by a URI.
use vstd::prelude::*;
use std::time::Instant;
use crate::net::SocketAddr;
use crate::table::StrTable;
use crate::text::{chars_of, lemma_split_on_last, lemma_split_on_no_sep, split_on};

verus! {

/// The character that separates the parts of a URI fragment.
pub const SPLIT_PAT: char = '+';

/// The request identifier of a URI whose fragment carries none.
pub const DEFAULT_REQ_ID: &'static str = "default";

#[verifier::external_type_specification]
#[verifier::external_body]
pub struct ExInstant(Instant);

/// `Instant::clone`: `Instant` is `Copy`, so a clone is the same instant.
pub assume_specification[ <Instant as Clone>::clone ](t: &Instant) -> (r: Instant)
    ensures
        r == *t,
;

/// `Instant::now`: the current time. Nothing is stated of the value, which
/// depends on the clock.
#[verifier::external_body]
fn instant_now() -> Instant {
    Instant::now()
}

/// Times of the exchange of a request on a connection.
#[derive(Clone, Copy, Debug)]
pub struct TransportInfo {
    pub req_finished_ts: Instant,
    pub res_begin_ts: Instant,
    pub res_header_finished_ts: Instant,
    pub res_header_length: u64,
}

/// How the address of a connection was found.
#[derive(Clone, Copy, Debug, PartialEq, Eq, Structural)]
pub enum AddrResolveType {
    Ip,
    Specified,
    Cached,
    Resolved,
}

/// How and when the address of a connection was found.
#[derive(Clone, Copy, Debug)]
pub struct DnsInfo {
    pub addr_resolve_type: AddrResolveType,
    pub finished_ts: Instant,
}

impl DnsInfo {
    /// The resolution of the given kind, finished now.
    pub fn new(addr_resolve_type: AddrResolveType) -> (r: Self)
        ensures
            r.addr_resolve_type == addr_resolve_type,
    {
        Self::finished_at(addr_resolve_type, instant_now())
    }

    /// The resolution of the given kind, finished at `finished_ts`.
    pub fn finished_at(addr_resolve_type: AddrResolveType, finished_ts: Instant) -> (r: Self)
        ensures
            r == (DnsInfo { addr_resolve_type, finished_ts }),
    {
        Self { addr_resolve_type, finished_ts }
    }
}

/// The TCP connection: its local and remote addresses, its descriptor and
/// when it was established.
#[derive(Clone, Copy, Debug)]
pub struct TcpInfo {
    pub pair_addrs: (SocketAddr, SocketAddr),
    pub raw_fd: i32,
    pub finished_ts: Instant,
}

/// The TLS session of a connection.
#[derive(Clone, Debug)]
pub struct TlsInfo {
    pub alpn: Option<String>,
    pub protocol_version: Option<String>,
    pub cipher_suite: Option<String>,
    pub finished_ts: Instant,
}

/// A connection made for a request.
#[derive(Clone, Debug)]
pub struct ConnectionInfo {
    pub req_id: String,
    pub connection_begin_ts: Instant,
    pub dns_info: DnsInfo,
    pub tcp_info: TcpInfo,
    pub tls_info: Option<TlsInfo>,
}

/// How a request got its connection.
#[derive(Clone, Debug)]
pub struct ConnectInfo {
    pub consulted_alpn: String,
    pub is_proxied: bool,
    pub reuse_idle_connection: bool,
    pub send_req_ts: Instant,
    pub connect_finished_ts: Instant,
    pub connection_info: ConnectionInfo,
}

/// What is recorded of the requests of a task.
pub ghost struct RequestInfoView {
    pub send_req_ts: Map<Seq<char>, Instant>,
    pub connection_begin_ts: Map<Seq<char>, Instant>,
    pub dns_info: Map<Seq<char>, DnsInfo>,
    pub tls_info: Map<Seq<char>, TlsInfo>,
    pub connection_info: Map<Seq<char>, ConnectionInfo>,
    pub connect_info: Map<Seq<char>, ConnectInfo>,
    pub transport_info: Map<Seq<char>, TransportInfo>,
    pub req_finished_ts: Option<Instant>,
    pub res_begin_ts: Option<Instant>,
    pub res_header_finished_ts: Option<Instant>,
    pub res_header_length: Option<u64>,
}

/// The information recorded for the requests of a task.
pub struct RequestInfo {
    send_req_ts: StrTable<Instant>,
    connection_begin_ts: StrTable<Instant>,
    dns_info: StrTable<DnsInfo>,
    tls_info: StrTable<TlsInfo>,
    connection_info: StrTable<ConnectionInfo>,
    connect_info: StrTable<ConnectInfo>,
    transport_info: StrTable<TransportInfo>,
    req_finished_ts: Option<Instant>,
    res_begin_ts: Option<Instant>,
    res_header_finished_ts: Option<Instant>,
    res_header_length: Option<u64>,
}

impl View for RequestInfo {
    type V = RequestInfoView;

    closed spec fn view(&self) -> RequestInfoView {
        RequestInfoView {
            send_req_ts: self.send_req_ts@,
            connection_begin_ts: self.connection_begin_ts@,
            dns_info: self.dns_info@,
            tls_info: self.tls_info@,
            connection_info: self.connection_info@,
            connect_info: self.connect_info@,
            transport_info: self.transport_info@,
            req_finished_ts: self.req_finished_ts,
            res_begin_ts: self.res_begin_ts,
            res_header_finished_ts: self.res_header_finished_ts,
            res_header_length: self.res_header_length,
        }
    }
}

impl RequestInfo {
    pub closed spec fn wf(self) -> bool {
        &&& self.send_req_ts.well_formed()
        &&& self.connection_begin_ts.well_formed()
        &&& self.dns_info.well_formed()
        &&& self.tls_info.well_formed()
        &&& self.connection_info.well_formed()
        &&& self.connect_info.well_formed()
        &&& self.transport_info.well_formed()
    }

    /// Nothing recorded yet.
    pub fn new() -> (r: RequestInfo)
        ensures
            r.wf(),
            r@ == (RequestInfoView {
                send_req_ts: Map::empty(),
                connection_begin_ts: Map::empty(),
                dns_info: Map::empty(),
                tls_info: Map::empty(),
                connection_info: Map::empty(),
                connect_info: Map::empty(),
                transport_info: Map::empty(),
                req_finished_ts: None,
                res_begin_ts: None,
                res_header_finished_ts: None,
                res_header_length: None,
            }),
    {
        RequestInfo {
            send_req_ts: StrTable::new(),
            connection_begin_ts: StrTable::new(),
            dns_info: StrTable::new(),
            tls_info: StrTable::new(),
            connection_info: StrTable::new(),
            connect_info: StrTable::new(),
            transport_info: StrTable::new(),
            req_finished_ts: None,
            res_begin_ts: None,
            res_header_finished_ts: None,
            res_header_length: None,
        }
    }
}

/// Records when the request `req_id` was sent.
pub fn set_send_req_ts(info: &mut RequestInfo, req_id: String, ts: Instant)
    requires
        old(info).wf(),
    ensures
        final(info).wf(),
        final(info)@ == (RequestInfoView { send_req_ts: old(info)@.send_req_ts.insert(req_id@, ts), ..old(info)@ }),
{
    info.send_req_ts.insert(req_id, ts);
}

/// When the request `req_id` was sent.
pub fn get_send_req_ts(info: &RequestInfo, req_id: &str) -> (r: Option<Instant>)
    requires
        info.wf(),
    ensures
        r == info@.send_req_ts.get(req_id@),
{
    match info.send_req_ts.get(req_id) {
        Some(t) => Some(*t),
        None => None,
    }
}

/// Records that a connection for the request `req_id` begins now.
pub fn set_connection_begin_ts(info: &mut RequestInfo, req_id: String)
    requires
        old(info).wf(),
    ensures
        final(info).wf(),
        final(info)@ == (RequestInfoView {
            connection_begin_ts: old(info)@.connection_begin_ts.insert(
                req_id@,
                final(info)@.connection_begin_ts[req_id@],
            ),
            ..old(info)@
        }),
{
    let now = instant_now();
    set_connection_begin_ts_at(info, req_id, now);
}

/// Records that a connection for the request `req_id` began at `ts`.
pub fn set_connection_begin_ts_at(info: &mut RequestInfo, req_id: String, ts: Instant)
    requires
        old(info).wf(),
    ensures
        final(info).wf(),
        final(info)@ == (RequestInfoView {
            connection_begin_ts: old(info)@.connection_begin_ts.insert(req_id@, ts),
            ..old(info)@
        }),
{
    info.connection_begin_ts.insert(req_id, ts);
}

/// When a connection for the request `req_id` began.
pub fn get_connection_begin_ts(info: &RequestInfo, req_id: &str) -> (r: Option<Instant>)
    requires
        info.wf(),
    ensures
        r == info@.connection_begin_ts.get(req_id@),
{
    match info.connection_begin_ts.get(req_id) {
        Some(t) => Some(*t),
        None => None,
    }
}

/// Records how the address for the request `req_id` was found.
pub fn set_dns_info(info: &mut RequestInfo, req_id: String, dns_info: DnsInfo)
    requires
        old(info).wf(),
    ensures
        final(info).wf(),
        final(info)@ == (RequestInfoView { dns_info: old(info)@.dns_info.insert(req_id@, dns_info), ..old(info)@ }),
{
    info.dns_info.insert(req_id, dns_info);
}

/// How the address for the request `req_id` was found.
pub fn get_dns_info(info: &RequestInfo, req_id: &str) -> (r: Option<DnsInfo>)
    requires
        info.wf(),
    ensures
        r == info@.dns_info.get(req_id@),
{
    match info.dns_info.get(req_id) {
        Some(d) => Some(*d),
        None => None,
    }
}

/// Records the TLS session of the request `req_id`.
pub fn set_tls_info(info: &mut RequestInfo, req_id: String, tls_info: TlsInfo)
    requires
        old(info).wf(),
    ensures
        final(info).wf(),
        final(info)@ == (RequestInfoView { tls_info: old(info)@.tls_info.insert(req_id@, tls_info), ..old(info)@ }),
{
    info.tls_info.insert(req_id, tls_info);
}

/// The TLS session of the request `req_id`.
pub fn get_tls_info<'a>(info: &'a RequestInfo, req_id: &str) -> (r: Option<&'a TlsInfo>)
    requires
        info.wf(),
    ensures
        match r {
            Some(t) => info@.tls_info.get(req_id@) == Some(*t),
            None => info@.tls_info.get(req_id@) is None,
        },
{
    info.tls_info.get(req_id)
}

/// Records the connection made for the request `req_id`.
pub fn set_connection_info(info: &mut RequestInfo, req_id: String, connection_info: ConnectionInfo)
    requires
        old(info).wf(),
    ensures
        final(info).wf(),
        final(info)@ == (RequestInfoView {
            connection_info: old(info)@.connection_info.insert(req_id@, connection_info),
            ..old(info)@
        }),
{
    info.connection_info.insert(req_id, connection_info);
}

/// The connection made for the request `req_id`.
pub fn get_connection_info<'a>(info: &'a RequestInfo, req_id: &str) -> (r: Option<&'a ConnectionInfo>)
    requires
        info.wf(),
    ensures
        match r {
            Some(c) => info@.connection_info.get(req_id@) == Some(*c),
            None => info@.connection_info.get(req_id@) is None,
        },
{
    info.connection_info.get(req_id)
}

/// Records how the request `req_id` got its connection.
pub fn set_connect_info(info: &mut RequestInfo, req_id: String, connect_info: ConnectInfo)
    requires
        old(info).wf(),
    ensures
        final(info).wf(),
        final(info)@ == (RequestInfoView {
            connect_info: old(info)@.connect_info.insert(req_id@, connect_info),
            ..old(info)@
        }),
{
    info.connect_info.insert(req_id, connect_info);
}

/// How the request `req_id` got its connection.
pub fn get_connect_info<'a>(info: &'a RequestInfo, req_id: &str) -> (r: Option<&'a ConnectInfo>)
    requires
        info.wf(),
    ensures
        match r {
            Some(c) => info@.connect_info.get(req_id@) == Some(*c),
            None => info@.connect_info.get(req_id@) is None,
        },
{
    info.connect_info.get(req_id)
}

/// Records that the request has been sent in full, now.
pub fn set_req_finished_ts(info: &mut RequestInfo)
    ensures
        final(info)@.req_finished_ts is Some,
        final(info)@ == (RequestInfoView { req_finished_ts: final(info)@.req_finished_ts, ..old(info)@ }),
{
    let now = instant_now();
    set_req_finished_ts_at(info, now);
}

/// Records that the request was sent in full at `ts`.
pub fn set_req_finished_ts_at(info: &mut RequestInfo, ts: Instant)
    ensures
        final(info)@ == (RequestInfoView { req_finished_ts: Some(ts), ..old(info)@ }),
{
    info.req_finished_ts = Some(ts);
}

/// When the request was sent in full.
pub fn get_req_finished_ts(info: &RequestInfo) -> (r: Option<Instant>)
    ensures
        r == info@.req_finished_ts,
{
    info.req_finished_ts
}

/// Records that the response begins now.
pub fn set_res_begin_ts(info: &mut RequestInfo)
    ensures
        final(info)@.res_begin_ts is Some,
        final(info)@ == (RequestInfoView { res_begin_ts: final(info)@.res_begin_ts, ..old(info)@ }),
{
    let now = instant_now();
    set_res_begin_ts_at(info, now);
}

/// Records that the response began at `ts`.
pub fn set_res_begin_ts_at(info: &mut RequestInfo, ts: Instant)
    ensures
        final(info)@ == (RequestInfoView { res_begin_ts: Some(ts), ..old(info)@ }),
{
    info.res_begin_ts = Some(ts);
}

/// When the response began.
pub fn get_res_begin_ts(info: &RequestInfo) -> (r: Option<Instant>)
    ensures
        r == info@.res_begin_ts,
{
    info.res_begin_ts
}

/// Records that the response header has been received in full, now.
pub fn set_res_header_finished_ts(info: &mut RequestInfo)
    ensures
        final(info)@.res_header_finished_ts is Some,
        final(info)@ == (RequestInfoView { res_header_finished_ts: final(info)@.res_header_finished_ts, ..old(info)@ }),
{
    let now = instant_now();
    set_res_header_finished_ts_at(info, now);
}

/// Records that the response header was received in full at `ts`.
pub fn set_res_header_finished_ts_at(info: &mut RequestInfo, ts: Instant)
    ensures
        final(info)@ == (RequestInfoView { res_header_finished_ts: Some(ts), ..old(info)@ }),
{
    info.res_header_finished_ts = Some(ts);
}

/// When the response header was received in full.
pub fn get_res_header_finished_ts(info: &RequestInfo) -> (r: Option<Instant>)
    ensures
        r == info@.res_header_finished_ts,
{
    info.res_header_finished_ts
}

/// Records the length of the response header.
pub fn set_res_header_length(info: &mut RequestInfo, len: u64)
    ensures
        final(info)@ == (RequestInfoView { res_header_length: Some(len), ..old(info)@ }),
{
    info.res_header_length = Some(len);
}

/// The length of the response header.
pub fn get_res_header_length(info: &RequestInfo) -> (r: Option<u64>)
    ensures
        r == info@.res_header_length,
{
    info.res_header_length
}

/// Records the exchange of the request `req_id`.
pub fn set_transport_info(info: &mut RequestInfo, req_id: String, transport_info: TransportInfo)
    requires
        old(info).wf(),
    ensures
        final(info).wf(),
        final(info)@ == (RequestInfoView {
            transport_info: old(info)@.transport_info.insert(req_id@, transport_info),
            ..old(info)@
        }),
{
    info.transport_info.insert(req_id, transport_info);
}

/// The exchange of the request `req_id`.
pub fn get_transport_info(info: &RequestInfo, req_id: &str) -> (r: Option<TransportInfo>)
    requires
        info.wf(),
    ensures
        r == info@.transport_info.get(req_id@),
{
    match info.transport_info.get(req_id) {
        Some(t) => Some(*t),
        None => None,
    }
}

/// The request identifier that a URI carries: the last `+`-separated part
/// of its fragment, or `DEFAULT_REQ_ID` for a URI without a fragment.
pub open spec fn req_id_of(fragment: Option<Seq<char>>) -> Seq<char> {
    match fragment {
        Some(f) => split_on(f, '+').last(),
        None => DEFAULT_REQ_ID@,
    }
}

/// The request identifier of a URI with the fragment `fragment`.
pub fn get_uri_req_id(fragment: Option<&str>) -> (r: String)
    ensures
        r@ == req_id_of(match fragment { Some(f) => Some(f@), None => None }),
{
    match fragment {
        Some(f) => {
            let s = chars_of(f);
            let n = s.len();
            let mut q = n;
            while q > 0 && s[q - 1] != '+'
                invariant
                    q <= n == s@.len(),
                    forall|i: int| q <= i < n ==> s@[i] != '+',
                decreases q,
            {
                q = q - 1;
            }
            proof {
                if q > 0 {
                    lemma_split_on_last(s@, '+', q - 1);
                } else {
                    lemma_split_on_no_sep(s@, '+');
                    assert(s@.skip(0) =~= s@);
                }
            }
            let part = f.substring_char(q, n);
            assert(part@ =~= s@.skip(q as int));
            part.to_owned()
        },
        None => DEFAULT_REQ_ID.to_owned(),
    }
}


/// What is recorded for a request is read back for that request, and
/// recording it leaves what other requests read unchanged.
pub proof fn law_recorded_is_read_back<V>(table: Map<Seq<char>, V>, req_id: Seq<char>, value: V, other: Seq<char>)
    ensures
        table.insert(req_id, value).get(req_id) == Some(value),
        other != req_id ==> table.insert(req_id, value).get(other) == table.get(other),
{
}

/// The request identifier carried by a fragment ends the fragment and holds
/// no `+`.
pub proof fn law_req_id_is_last_part(fragment: Seq<char>)
    ensures
        ({
            let id = req_id_of(Some(fragment));
            &&& id.len() <= fragment.len()
            &&& fragment.skip(fragment.len() - id.len()) == id
            &&& forall|i: int| 0 <= i < id.len() ==> id[i] != '+'
        }),
    decreases fragment.len(),
{
    crate::text::lemma_split_on_len(fragment, '+');
    if fragment.len() == 0 {
        assert(fragment.skip(0) =~= Seq::<char>::empty());
    } else {
        let t = fragment.drop_last();
        law_req_id_is_last_part(t);
        crate::text::lemma_split_on_len(t, '+');
        let id_t = req_id_of(Some(t));
        if fragment.last() == '+' {
            assert(fragment.skip(fragment.len() as int) =~= Seq::<char>::empty());
        } else {
            let id = id_t.push(fragment.last());
            assert(req_id_of(Some(fragment)) == id);
            assert(fragment.skip(fragment.len() - id.len()) =~= t.skip(t.len() - id_t.len()).push(fragment.last()));
        }
    }
}

} // verus!
