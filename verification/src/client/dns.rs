//! Resolver support for plain client connections: host lookups as work items,
//! IP literals, addresses set by hand, and addresses named in URI fragments.
use vstd::prelude::*;
use crate::net::SocketAddr;
use crate::text::{
    chars_of,
    chars_start_with,
    find_char,
    ipv4_text,
    lemma_split_on_first,
    parse_ipv4,
    parse_ipv4_range,
    parse_ipv6,
    split_on,
    starts_with,
    str_eq,
};
use crate::client::connect::dns::{CustomAddrTable, get_custom_addr, literal_addr};

verus! {

/// The fragment that asks for the addresses of a request to be ranked anew.
pub const RERANK_FRAGMENT: &'static str = "947afd3b7a_rerank";

/// The prefix of a fragment that names the IP address to connect to.
pub const IP_FRAGMENT_PREFIX: &'static str = "430BB5C318_ip:";

/// A lookup of `host` for connections to `port`.
pub struct Work {
    host: String,
    port: u16,
}

impl Work {
    /// The lookup of `host` for `port`.
    pub fn new(host: String, port: u16) -> (r: Work)
        ensures
            r.host()@ == host@,
            r.port() == port,
    {
        Work { host, port }
    }

    pub closed spec fn host(&self) -> String {
        self.host
    }

    pub closed spec fn port(&self) -> u16 {
        self.port
    }

    /// The host to look up.
    pub fn host_str(&self) -> (r: &str)
        ensures
            r@ == self.host()@,
    {
        self.host.as_str()
    }

    /// The port the addresses are for.
    pub fn port_num(&self) -> (r: u16)
        ensures
            r == self.port(),
    {
        self.port
    }
}

/// The addresses to try for a host, in order.
#[derive(Clone, Debug)]
pub struct IpAddrs {
    iter: Vec<SocketAddr>,
}

impl View for IpAddrs {
    type V = Seq<SocketAddr>;

    closed spec fn view(&self) -> Seq<SocketAddr> {
        self.iter@
    }
}

impl IpAddrs {
    /// The single address `addr`.
    pub fn new(addr: SocketAddr) -> (r: IpAddrs)
        ensures
            r@ == seq![addr],
    {
        let r = IpAddrs { iter: vec![addr] };
        assert(r@ =~= seq![addr]);
        r
    }

    /// The addresses `addrs`, in order.
    pub fn from_vec(addrs: Vec<SocketAddr>) -> (r: IpAddrs)
        ensures
            r@ == addrs@,
    {
        IpAddrs { iter: addrs }
    }

    /// The single address that `host` denotes at `port` when it is an IP
    /// literal; `None` when it is not.
    pub fn try_parse(host: &str, port: u16) -> (r: Option<IpAddrs>)
        ensures
            match r {
                Some(a) => literal_addr(host@, port) matches Some(x) && a@ == seq![x],
                None => literal_addr(host@, port) is None,
            },
    {
        if let Some(addr) = parse_ipv4(host) {
            return Some(IpAddrs::new(SocketAddr::V4 { ip: addr, port }));
        }
        if let Some(addr) = parse_ipv6(host) {
            return Some(IpAddrs::new(SocketAddr::V6 { ip: addr, port, flowinfo: 0, scope_id: 0 }));
        }
        None
    }

    /// The address set by hand for `domain`, unless the addresses are being
    /// ranked anew.
    pub fn try_parse_custom(table: &CustomAddrTable, domain: &str, is_reranking: bool) -> (r: Option<IpAddrs>)
        requires
            table.wf(),
        ensures
            match r {
                Some(a) => !is_reranking && table@.contains_key(domain@) && a@ == seq![table@[domain@]],
                None => is_reranking || !table@.contains_key(domain@),
            },
    {
        if is_reranking {
            return None;
        }
        match get_custom_addr(table, domain) {
            Some(addr) => Some(IpAddrs::new(addr)),
            None => None,
        }
    }

    /// Takes the next address.
    pub fn next(&mut self) -> (r: Option<SocketAddr>)
        ensures
            old(self)@.len() == 0 ==> r is None && final(self)@ == old(self)@,
            old(self)@.len() > 0 ==> r == Some(old(self)@[0]) && final(self)@ == old(self)@.drop_first(),
    {
        if self.iter.len() == 0 {
            return None;
        }
        let a = self.iter.remove(0);
        assert(self.iter@ =~= old(self)@.drop_first());
        Some(a)
    }
}

/// The IPv4 socket address at port 443 that `ip` denotes.
pub open spec fn addr_of_ip(ip: Seq<char>) -> Option<SocketAddr> {
    match ipv4_text(ip) {
        Some(b) => Some(SocketAddr::V4 { ip: b, port: 443 }),
        None => None,
    }
}

/// The socket address at port 443 of the IPv4 literal `ip`.
fn get_addr_by_ip(ip: &str) -> (r: Option<SocketAddr>)
    ensures
        r == addr_of_ip(ip@),
{
    match parse_ipv4(ip) {
        Some(b) => Some(SocketAddr::V4 { ip: b, port: 443 }),
        None => None,
    }
}

/// The address that a URI fragment names: a fragment that begins with
/// `IP_FRAGMENT_PREFIX` names an IPv4 address in its second colon-separated
/// field, used at port 443.
pub open spec fn fragment_addr(fragment: Seq<char>) -> Option<SocketAddr> {
    if !starts_with(fragment, IP_FRAGMENT_PREFIX@) {
        None
    } else {
        let elements = split_on(fragment, ':');
        if elements.len() < 2 {
            None
        } else {
            addr_of_ip(elements[1])
        }
    }
}

/// The address named by a URI fragment.
pub fn get_addrs_by_uri(fragment: Option<&str>) -> (r: Option<SocketAddr>)
    ensures
        r == (match fragment {
            Some(f) => fragment_addr(f@),
            None => None,
        }),
{
    let fragment = match fragment {
        Some(f) => f,
        None => return None,
    };
    let s = chars_of(fragment);
    let prefix = chars_of(IP_FRAGMENT_PREFIX);
    if !chars_start_with(&s, &prefix) {
        return None;
    }
    let n = s.len();
    let a = find_char(&s, 0, n, ':');
    proof {
        lemma_split_on_first(s@, ':', a as int);
    }
    if a == n {
        return None;
    }
    let b = find_char(&s, a + 1, n, ':');
    proof {
        let rest = s@.skip(a + 1);
        assert forall|i: int| 0 <= i < b - (a + 1) implies rest[i] != ':' by {
            assert(rest[i] == s@[a + 1 + i]);
        }
        if b < n {
            assert(rest[b - (a + 1)] == s@[b as int]);
        }
        lemma_split_on_first(rest, ':', b - (a + 1));
        assert(rest.take(b - (a + 1)) =~= s@.subrange(a + 1, b as int));
    }
    match parse_ipv4_range(&s, a + 1, b) {
        Some(bits) => Some(SocketAddr::V4 { ip: bits, port: 443 }),
        None => None,
    }
}

/// Whether the URI fragment asks for the addresses to be ranked anew.
pub fn is_reranking(fragment: Option<&str>) -> (r: bool)
    ensures
        r == (fragment matches Some(f) && f@ == RERANK_FRAGMENT@),
{
    match fragment {
        Some(f) => str_eq(f, RERANK_FRAGMENT),
        None => false,
    }
}

/// Sets the address of `domain` to the IPv4 literal `addr` at port 443;
/// an `addr` that is no IPv4 literal changes nothing.
pub fn set_custom_addr(table: &mut CustomAddrTable, domain: String, addr: &str)
    requires
        old(table).wf(),
    ensures
        final(table).wf(),
        final(table)@ == (match addr_of_ip(addr@) {
            Some(a) => old(table)@.insert(domain@, a),
            None => old(table)@,
        }),
{
    if let Some(a) = get_addr_by_ip(addr) {
        table.insert(domain, a);
    }
}

/// Removes the address set for `domain`.
pub fn remove_custom_addr(table: &mut CustomAddrTable, domain: &str)
    requires
        old(table).wf(),
    ensures
        final(table).wf(),
        final(table)@ == old(table)@.remove(domain@),
{
    table.remove(domain);
}

} // verus!
