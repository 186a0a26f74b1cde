//! Names to resolve, the addresses a resolution yields, IP literals used
//! as hosts, and addresses set by hand for a domain.
use vstd::prelude::*;
use crate::net::{IpAddr, SocketAddr};
use crate::table::StrTable;
use crate::text::{
    chars_of,
    chars_start_with,
    find_char,
    ipv4_text,
    ipv6_text,
    lemma_split_on_first,
    parse_ipv4,
    parse_ipv4_range,
    parse_ipv6,
    split_on,
    starts_with,
    str_eq,
};

pub use super::ranking::{
    AddrSource,
    DomainAddrTable,
    SocketAddrWithDelayTime,
    SortedAddr,
    cost_update_fits,
    delays_fit_for,
    get_sorted_addrs,
    insert_domain_sorted_addrs,
    remove_old_domain_sorted_addrs,
    update_domain_sorted_addr_cost,
};

verus! {

/// The fragment that asks for the addresses of a request to be ranked anew.
pub const RERANK_FRAGMENT: &'static str = "947afd3b7a_rerank";

/// The prefix of a fragment that names the IP address to connect to.
pub const IP_FRAGMENT_PREFIX: &'static str = "430BB5C318_ip:";

/// A domain name to resolve into IP addresses.
pub struct Name {
    host: String,
}

impl View for Name {
    type V = Seq<char>;

    closed spec fn view(&self) -> Seq<char> {
        self.host@
    }
}

impl Name {
    /// The name `host`.
    pub fn new(host: String) -> (r: Name)
        ensures
            r@ == host@,
    {
        Name { host }
    }

    /// The host name as a string slice.
    pub fn as_str(&self) -> (r: &str)
        ensures
            r@ == self@,
    {
        self.host.as_str()
    }
}

/// A resolver that runs the blocking lookup on the threads of the runtime
/// it is polled on.
#[derive(Clone, Copy, Debug)]
pub struct TokioThreadpoolGaiResolver(());

/// The lookup of one name by a `TokioThreadpoolGaiResolver`.
pub struct TokioThreadpoolGaiFuture {
    name: Name,
}

impl TokioThreadpoolGaiResolver {
    /// A new resolver.
    pub fn new() -> Self {
        TokioThreadpoolGaiResolver(())
    }

    /// The lookup of `name`.
    pub fn resolve(&self, name: Name) -> (r: TokioThreadpoolGaiFuture)
        ensures
            r.name()@ == name@,
    {
        TokioThreadpoolGaiFuture { name }
    }
}

impl TokioThreadpoolGaiFuture {
    pub closed spec fn name(&self) -> Name {
        self.name
    }

    /// The name being looked up.
    pub fn name_ref(&self) -> (r: &Name)
        ensures
            *r == self.name(),
    {
        &self.name
    }
}

/// A blocking lookup of one host name, to be run on a thread pool.
pub struct GaiBlocking {
    host: String,
}

impl GaiBlocking {
    /// The lookup of `host`.
    pub fn new(host: String) -> (r: GaiBlocking)
        ensures
            r.host()@ == host@,
    {
        GaiBlocking { host }
    }

    pub closed spec fn host(&self) -> String {
        self.host
    }

    /// The host to look up.
    pub fn host_str(&self) -> (r: &str)
        ensures
            r@ == self.host()@,
    {
        self.host.as_str()
    }
}

/// The addresses to try for a host, in order.
#[derive(Clone, Debug)]
pub struct IpAddrs {
    iter: Vec<SocketAddr>,
}

impl View for IpAddrs {
    type V = Seq<SocketAddr>;

    closed spec fn view(&self) -> Seq<SocketAddr> {
        self.iter@
    }
}

/// Whether an address is of the family chosen by `v6`.
pub open spec fn in_family(v6: bool) -> spec_fn(SocketAddr) -> bool {
    |a: SocketAddr| (a is V6) == v6
}

/// Whether an address is not of the family chosen by `v6`.
pub open spec fn out_of_family(v6: bool) -> spec_fn(SocketAddr) -> bool {
    |a: SocketAddr| (a is V6) != v6
}

/// The family preferred for `s`: that of its first address, IPv4 when empty.
pub open spec fn preferred_v6(s: Seq<SocketAddr>) -> bool {
    s.len() > 0 && s[0] is V6
}

/// The socket address that an IP literal `host` denotes at `port`: an IPv4
/// literal first, else an IPv6 one.
pub open spec fn literal_addr(host: Seq<char>, port: u16) -> Option<SocketAddr> {
    match ipv4_text(host) {
        Some(b) => Some(SocketAddr::V4 { ip: b, port }),
        None => match ipv6_text(host) {
            Some(b) => Some(SocketAddr::V6 { ip: b, port, flowinfo: 0, scope_id: 0 }),
            None => None,
        },
    }
}

impl IpAddrs {
    /// The addresses `addrs`, in order.
    pub fn new(addrs: Vec<SocketAddr>) -> (r: IpAddrs)
        ensures
            r@ == addrs@,
    {
        IpAddrs { iter: addrs }
    }

    /// The single address that `host` denotes at `port` when it is an IP
    /// literal; `None` when it is not.
    pub fn try_parse(host: &str, port: u16) -> (r: Option<IpAddrs>)
        ensures
            match r {
                Some(a) => literal_addr(host@, port) matches Some(x) && a@ == seq![x],
                None => literal_addr(host@, port) is None,
            },
    {
        if let Some(addr) = parse_ipv4(host) {
            let a = SocketAddr::V4 { ip: addr, port };
            let r = IpAddrs { iter: vec![a] };
            assert(r@ =~= seq![a]);
            return Some(r);
        }
        if let Some(addr) = parse_ipv6(host) {
            let a = SocketAddr::V6 { ip: addr, port, flowinfo: 0, scope_id: 0 };
            let r = IpAddrs { iter: vec![a] };
            assert(r@ =~= seq![a]);
            return Some(r);
        }
        None
    }

    /// Splits the addresses into those of the family of the first address
    /// (IPv4 when there is none) and the others, each in the order they had.
    pub fn split_by_preference(self) -> (r: (IpAddrs, IpAddrs))
        ensures
            r.0@ == self@.filter(in_family(preferred_v6(self@))),
            r.1@ == self@.filter(out_of_family(preferred_v6(self@))),
    {
        let preferring_v6 = if self.iter.len() > 0 {
            self.iter[0].is_ipv6()
        } else {
            false
        };
        let ghost orig = self@;
        let mut preferred: Vec<SocketAddr> = Vec::new();
        let mut fallback: Vec<SocketAddr> = Vec::new();
        assert(orig.take(0) =~= Seq::<SocketAddr>::empty());
        proof {
            reveal(Seq::filter);
        }
        for addr in it: self.iter
            invariant
                it.seq() == orig,
                preferred@ == orig.take(it.index()).filter(in_family(preferring_v6)),
                fallback@ == orig.take(it.index()).filter(out_of_family(preferring_v6)),
        {
            let ghost i = it.index();
            proof {
                reveal(Seq::filter);
                assert(orig.take(i + 1).drop_last() =~= orig.take(i));
                assert(orig.take(i + 1).last() == addr);
            }
            if addr.is_ipv6() == preferring_v6 {
                preferred.push(addr);
            } else {
                fallback.push(addr);
            }
        }
        assert(orig.take(orig.len() as int) =~= orig);
        (IpAddrs::new(preferred), IpAddrs::new(fallback))
    }

    /// Whether no address is left.
    pub fn is_empty(&self) -> (r: bool)
        ensures
            r == (self@.len() == 0),
    {
        self.iter.len() == 0
    }

    /// Takes the next address.
    pub fn next(&mut self) -> (r: Option<SocketAddr>)
        ensures
            old(self)@.len() == 0 ==> r is None && final(self)@ == old(self)@,
            old(self)@.len() > 0 ==> r == Some(old(self)@[0]) && final(self)@ == old(self)@.drop_first(),
    {
        if self.iter.len() == 0 {
            return None;
        }
        let a = self.iter.remove(0);
        assert(self.iter@ =~= old(self)@.drop_first());
        Some(a)
    }
}

/// The IP addresses that a lookup found, in order.
pub struct GaiAddrs {
    inner: IpAddrs,
}

impl View for GaiAddrs {
    type V = Seq<SocketAddr>;

    closed spec fn view(&self) -> Seq<SocketAddr> {
        self.inner@
    }
}

impl GaiAddrs {
    /// The IP addresses of the socket addresses `inner`.
    pub fn new(inner: IpAddrs) -> (r: GaiAddrs)
        ensures
            r@ == inner@,
    {
        GaiAddrs { inner }
    }

    /// Takes the IP address of the next socket address.
    pub fn next(&mut self) -> (r: Option<IpAddr>)
        ensures
            old(self)@.len() == 0 ==> r is None && final(self)@ == old(self)@,
            old(self)@.len() > 0 ==> r == Some(old(self)@[0].spec_ip()) && final(self)@ == old(self)@.drop_first(),
    {
        match self.inner.next() {
            Some(sa) => Some(sa.ip()),
            None => None,
        }
    }
}

/// Addresses set by hand for domains.
pub struct CustomAddrTable {
    addrs: StrTable<SocketAddr>,
}

impl View for CustomAddrTable {
    type V = Map<Seq<char>, SocketAddr>;

    closed spec fn view(&self) -> Map<Seq<char>, SocketAddr> {
        self.addrs@
    }
}

impl CustomAddrTable {
    pub closed spec fn wf(self) -> bool {
        self.addrs.well_formed()
    }

    /// An empty table.
    pub fn new() -> (t: CustomAddrTable)
        ensures
            t.wf(),
            t@ == Map::<Seq<char>, SocketAddr>::empty(),
    {
        CustomAddrTable { addrs: StrTable::new() }
    }

    /// Sets the address of `domain`.
    pub fn insert(&mut self, domain: String, addr: SocketAddr)
        requires
            old(self).wf(),
        ensures
            final(self).wf(),
            final(self)@ == old(self)@.insert(domain@, addr),
    {
        self.addrs.insert(domain, addr);
    }

    /// Removes the address of `domain`.
    pub fn remove(&mut self, domain: &str)
        requires
            old(self).wf(),
        ensures
            final(self).wf(),
            final(self)@ == old(self)@.remove(domain@),
    {
        let _ = self.addrs.remove(domain);
    }
}

/// The address set by hand for `domain`, if any.
pub fn get_custom_addr(table: &CustomAddrTable, domain: &str) -> (r: Option<SocketAddr>)
    requires
        table.wf(),
    ensures
        r == table@.get(domain@),
{
    match table.addrs.get(domain) {
        Some(a) => Some(*a),
        None => None,
    }
}

/// The IPv4 socket address that `ip` denotes, at `port` or else 443.
pub open spec fn addr_of_ip(ip: Seq<char>, port: Option<u16>) -> Option<SocketAddr> {
    match ipv4_text(ip) {
        Some(b) => Some(SocketAddr::V4 { ip: b, port: if port is Some { port->0 } else { 443 } }),
        None => None,
    }
}

/// The socket address of the IPv4 literal `ip`, at `port` or else 443.
fn get_addr_by_ip(ip: &str, port: Option<u16>) -> (r: Option<SocketAddr>)
    ensures
        r == addr_of_ip(ip@, port),
{
    match parse_ipv4(ip) {
        Some(b) => {
            let p = match port {
                Some(p) => p,
                None => 443,
            };
            Some(SocketAddr::V4 { ip: b, port: p })
        },
        None => None,
    }
}

/// Sets the address of `domain` to the IPv4 literal `addr` at port 443;
/// an `addr` that is no IPv4 literal changes nothing.
pub fn set_custom_addr(table: &mut CustomAddrTable, domain: String, addr: &str)
    requires
        old(table).wf(),
    ensures
        final(table).wf(),
        final(table)@ == (match addr_of_ip(addr@, None) {
            Some(a) => old(table)@.insert(domain@, a),
            None => old(table)@,
        }),
{
    if let Some(a) = get_addr_by_ip(addr, None) {
        table.insert(domain, a);
    }
}

/// Removes the address set for `domain`.
pub fn remove_custom_addr(table: &mut CustomAddrTable, domain: &str)
    requires
        old(table).wf(),
    ensures
        final(table).wf(),
        final(table)@ == old(table)@.remove(domain@),
{
    table.remove(domain);
}

impl IpAddrs {
    /// The address set by hand for `domain`, moved to `port`.
    pub fn try_parse_custom(table: &CustomAddrTable, domain: &str, port: u16) -> (r: Option<IpAddrs>)
        requires
            table.wf(),
        ensures
            match r {
                Some(a) => table@.contains_key(domain@) && a@ == seq![table@[domain@].with_port(port)],
                None => !table@.contains_key(domain@),
            },
    {
        match get_custom_addr(table, domain) {
            Some(addr) => {
                let mut addr = addr;
                if addr.port() != port {
                    addr.set_port(port);
                }
                proof {
                    if table@[domain@].spec_port() == port {
                        assert(table@[domain@].with_port(port) == table@[domain@]);
                    }
                }
                let r = IpAddrs::new(vec![addr]);
                assert(r@ =~= seq![table@[domain@].with_port(port)]);
                Some(r)
            },
            None => None,
        }
    }
}

/// The port for a URI scheme: 80 for `http`, else 443.
pub open spec fn scheme_port(scheme: Option<Seq<char>>) -> Option<u16> {
    match scheme {
        Some(s) => Some(if s == "http"@ { 80u16 } else { 443u16 }),
        None => None,
    }
}

/// The address that a URI fragment names: a fragment that begins with
/// `IP_FRAGMENT_PREFIX` names, in the second colon-separated field of its
/// part before the first `+`, an IPv4 address, used at the port of the
/// scheme.
pub open spec fn fragment_addr(fragment: Seq<char>, scheme: Option<Seq<char>>) -> Option<SocketAddr> {
    if !starts_with(fragment, IP_FRAGMENT_PREFIX@) {
        None
    } else {
        let elements = split_on(split_on(fragment, crate::info::SPLIT_PAT)[0], ':');
        if elements.len() < 2 {
            None
        } else {
            addr_of_ip(elements[1], scheme_port(scheme))
        }
    }
}

/// The address named by the fragment of a URI, given the fragment and the
/// scheme of the URI.
pub fn get_addrs_by_uri(fragment: Option<&str>, scheme: Option<&str>) -> (r: Option<SocketAddr>)
    ensures
        r == (match fragment {
            Some(f) => fragment_addr(f@, match scheme { Some(s) => Some(s@), None => None }),
            None => None,
        }),
{
    let fragment = match fragment {
        Some(f) => f,
        None => return None,
    };
    let s = chars_of(fragment);
    let prefix = chars_of(IP_FRAGMENT_PREFIX);
    if !chars_start_with(&s, &prefix) {
        return None;
    }
    let n = s.len();
    let p = find_char(&s, 0, n, crate::info::SPLIT_PAT);
    proof {
        lemma_split_on_first(s@, crate::info::SPLIT_PAT, p as int);
    }
    let ghost head = s@.take(p as int);
    let a = find_char(&s, 0, p, ':');
    proof {
        lemma_split_on_first(head, ':', a as int);
    }
    if a == p {
        return None;
    }
    let b = find_char(&s, a + 1, p, ':');
    proof {
        let rest = head.skip(a + 1);
        assert forall|i: int| 0 <= i < b - (a + 1) implies rest[i] != ':' by {
            assert(rest[i] == s@[a + 1 + i]);
        }
        if b < p {
            assert(rest[b - (a + 1)] == s@[b as int]);
        }
        lemma_split_on_first(rest, ':', b - (a + 1));
        assert(rest.take(b - (a + 1)) =~= s@.subrange(a + 1, b as int));
    }
    let port = match scheme {
        Some(sc) => Some(if str_eq(sc, "http") { 80u16 } else { 443u16 }),
        None => None,
    };
    match parse_ipv4_range(&s, a + 1, b) {
        Some(bits) => {
            let pt = match port {
                Some(pt) => pt,
                None => 443,
            };
            Some(SocketAddr::V4 { ip: bits, port: pt })
        },
        None => None,
    }
}


/// Splitting by preference loses no address and adds none: the preferred
/// and fallback addresses together are the addresses; every preferred
/// address is of the preferred family, every fallback address of the
/// other; and the first address leads the preferred ones.
pub proof fn law_split_by_preference(s: Seq<SocketAddr>)
    ensures
        ({
            let v6 = preferred_v6(s);
            let preferred = s.filter(in_family(v6));
            let fallback = s.filter(out_of_family(v6));
            &&& preferred.len() + fallback.len() == s.len()
            &&& preferred.to_multiset().add(fallback.to_multiset()) == s.to_multiset()
            &&& forall|i: int| 0 <= i < preferred.len() ==> ((#[trigger] preferred[i]) is V6) == v6
            &&& forall|i: int| 0 <= i < fallback.len() ==> ((#[trigger] fallback[i]) is V6) != v6
            &&& s.len() > 0 ==> preferred.len() > 0 && preferred[0] == s[0]
        }),
{
    let v6 = preferred_v6(s);
    assert forall|x: SocketAddr| #[trigger] out_of_family(v6)(x) == !in_family(v6)(x) by {}
    crate::seqs::lemma_filter_split_len(s, in_family(v6), out_of_family(v6));
    crate::seqs::lemma_filter_split_multiset(s, in_family(v6), out_of_family(v6));
    crate::seqs::lemma_filter_all(s, in_family(v6));
    crate::seqs::lemma_filter_all(s, out_of_family(v6));
    if s.len() > 0 {
        crate::seqs::lemma_filter_first(s, in_family(v6));
    }
}

/// After the address of a domain is set to an IPv4 literal, looking up the
/// domain for a port gives that IPv4 address at that port; after it is
/// removed, looking it up gives nothing.
pub proof fn law_custom_addr_set_then_found(
    table: Map<Seq<char>, SocketAddr>,
    domain: Seq<char>,
    addr: Seq<char>,
    port: u16,
)
    ensures
        ipv4_text(addr) matches Some(bits) ==> {
            let after = match addr_of_ip(addr, None) {
                Some(a) => table.insert(domain, a),
                None => table,
            };
            &&& after.contains_key(domain)
            &&& after[domain].with_port(port) == (SocketAddr::V4 { ip: bits, port })
        },
        !table.remove(domain).contains_key(domain),
{
}

} // verus!
