//! IP and socket addresses as plain values, with the order and accessors
//! that the standard library documents for them.
use vstd::prelude::*;

verus! {

/// An IP address: an IPv4 address as its 32 bits, an IPv6 address as its
/// 128 bits, both read in network (big-endian) order.
#[derive(Clone, Copy, Debug, PartialEq, Eq, Structural, Hash, PartialOrd, Ord)]
pub enum IpAddr {
    V4(u32),
    V6(u128),
}

/// The total order of IP addresses: every IPv4 address comes before every
/// IPv6 address, and addresses of one family are ordered by their bits.
pub open spec fn ip_less(a: IpAddr, b: IpAddr) -> bool {
    match (a, b) {
        (IpAddr::V4(x), IpAddr::V4(y)) => x < y,
        (IpAddr::V4(_), IpAddr::V6(_)) => true,
        (IpAddr::V6(_), IpAddr::V4(_)) => false,
        (IpAddr::V6(x), IpAddr::V6(y)) => x < y,
    }
}

/// The order of IP addresses: every IPv4 address comes before every IPv6
/// address, and addresses of one family are ordered by their bits.
pub proof fn law_ip_order(x: u32, y: u32, v: u128, w: u128)
    ensures
        ip_less(IpAddr::V4(x), IpAddr::V6(v)),
        !ip_less(IpAddr::V6(v), IpAddr::V4(x)),
        ip_less(IpAddr::V4(x), IpAddr::V4(y)) <==> x < y,
        ip_less(IpAddr::V6(v), IpAddr::V6(w)) <==> v < w,
{
}

/// The value of four octets read as a big-endian 32-bit number.
pub open spec fn octets_value(a: int, b: int, c: int, d: int) -> int {
    a * 16777216 + b * 65536 + c * 256 + d
}

impl IpAddr {
    /// The IPv4 address with the given four octets.
    pub fn from_octets(a: u8, b: u8, c: u8, d: u8) -> (r: IpAddr)
        ensures
            r == IpAddr::V4(octets_value(a as int, b as int, c as int, d as int) as u32),
    {
        let bits: u32 = (a as u32) * 16777216 + (b as u32) * 65536 + (c as u32) * 256 + (d as u32);
        IpAddr::V4(bits)
    }

    /// The IPv6 address with the given eight 16-bit segments.
    pub fn from_segments(s: [u16; 8]) -> (r: IpAddr)
        ensures
            r == IpAddr::V6(segments_value(s@) as u128),
    {
        IpAddr::V6(segments_bits(&s))
    }

    /// Whether this is an IPv4 address.
    pub fn is_ipv4(&self) -> (r: bool)
        ensures
            r == (*self is V4),
    {
        match self {
            IpAddr::V4(_) => true,
            IpAddr::V6(_) => false,
        }
    }

    /// Whether this is an IPv6 address.
    pub fn is_ipv6(&self) -> (r: bool)
        ensures
            r == (*self is V6),
    {
        match self {
            IpAddr::V4(_) => false,
            IpAddr::V6(_) => true,
        }
    }

    /// Whether `self` comes strictly before `other` in the order of addresses.
    pub fn less_than(&self, other: &IpAddr) -> (r: bool)
        ensures
            r == ip_less(*self, *other),
    {
        match (self, other) {
            (IpAddr::V4(x), IpAddr::V4(y)) => *x < *y,
            (IpAddr::V4(_), IpAddr::V6(_)) => true,
            (IpAddr::V6(_), IpAddr::V4(_)) => false,
            (IpAddr::V6(x), IpAddr::V6(y)) => *x < *y,
        }
    }
}

/// 65536 to the power `n`.
pub open spec fn pow65536(n: int) -> int
    decreases n,
{
    if n <= 0 {
        1
    } else {
        65536 * pow65536(n - 1)
    }
}

proof fn lemma_pow65536_step(n: int)
    requires
        0 <= n,
    ensures
        pow65536(n + 1) == 65536 * pow65536(n),
        pow65536(n) > 0,
    decreases n,
{
    if n > 0 {
        lemma_pow65536_step(n - 1);
    }
}

proof fn lemma_pow65536_bound(n: int)
    requires
        0 <= n <= 7,
    ensures
        pow65536(n + 1) <= pow65536(8),
        pow65536(8) == u128::MAX + 1,
    decreases 7 - n,
{
    reveal_with_fuel(pow65536, 9);
    if n < 7 {
        lemma_pow65536_bound(n + 1);
        lemma_pow65536_step(n + 1);
    }
}

/// The number formed by the first `n` segments, most significant first.
pub open spec fn segments_prefix_value(s: Seq<u16>, n: int) -> int
    decreases n,
{
    if n <= 0 {
        0
    } else {
        segments_prefix_value(s, n - 1) * 65536 + s[n - 1]
    }
}

/// The 128-bit value of eight 16-bit segments, most significant first.
pub open spec fn segments_value(s: Seq<u16>) -> int {
    segments_prefix_value(s, 8)
}

/// The 128 bits of eight 16-bit segments, most significant first.
pub fn segments_bits(s: &[u16]) -> (bits: u128)
    requires
        s@.len() == 8,
    ensures
        bits as int == segments_value(s@),
{
    let mut bits: u128 = 0;
    let mut i: usize = 0;
    while i < 8
        invariant
            i <= 8,
            s@.len() == 8,
            bits as int == segments_prefix_value(s@, i as int),
            segments_prefix_value(s@, i as int) < pow65536(i as int),
        decreases 8 - i,
    {
        let ghost prev = bits as int;
        let ghost p = pow65536(i as int);
        proof {
            lemma_pow65536_step(i as int);
            lemma_pow65536_bound(i as int);
            assert(prev * 65536 + s@[i as int] < p * 65536) by (nonlinear_arith)
                requires
                    prev < p,
                    0 <= s@[i as int] < 65536,
            ;
        }
        assert(segments_prefix_value(s@, i + 1) == segments_prefix_value(s@, i as int) * 65536
            + s@[i as int]);
        bits = bits * 65536 + (s[i] as u128);
        i = i + 1;
    }
    bits
}

/// A socket address: an IP address with a port, and for IPv6 the flow
/// information and scope identifier.
#[derive(Clone, Copy, Debug, PartialEq, Eq, Structural, Hash)]
#[allow(inconsistent_fields)]
pub enum SocketAddr {
    V4 { ip: u32, port: u16 },
    V6 { ip: u128, port: u16, flowinfo: u32, scope_id: u32 },
}

impl SocketAddr {
    /// The socket address of `ip` and `port`; an IPv6 one has flow
    /// information and scope identifier 0.
    pub open spec fn spec_new(ip: IpAddr, port: u16) -> SocketAddr {
        match ip {
            IpAddr::V4(a) => SocketAddr::V4 { ip: a, port },
            IpAddr::V6(a) => SocketAddr::V6 { ip: a, port, flowinfo: 0, scope_id: 0 },
        }
    }

    pub open spec fn spec_ip(&self) -> IpAddr {
        match *self {
            SocketAddr::V4 { ip, .. } => IpAddr::V4(ip),
            SocketAddr::V6 { ip, .. } => IpAddr::V6(ip),
        }
    }

    pub open spec fn spec_port(&self) -> u16 {
        match *self {
            SocketAddr::V4 { port, .. } => port,
            SocketAddr::V6 { port, .. } => port,
        }
    }

    /// This address with its port replaced by `port`.
    pub open spec fn with_port(self, port: u16) -> SocketAddr {
        match self {
            SocketAddr::V4 { ip, .. } => SocketAddr::V4 { ip, port },
            SocketAddr::V6 { ip, flowinfo, scope_id, .. } => SocketAddr::V6 {
                ip,
                port,
                flowinfo,
                scope_id,
            },
        }
    }

    /// The socket address of `ip` and `port`.
    #[verifier::when_used_as_spec(spec_new)]
    pub fn new(ip: IpAddr, port: u16) -> (r: SocketAddr)
        ensures
            r == SocketAddr::spec_new(ip, port),
    {
        match ip {
            IpAddr::V4(a) => SocketAddr::V4 { ip: a, port },
            IpAddr::V6(a) => SocketAddr::V6 { ip: a, port, flowinfo: 0, scope_id: 0 },
        }
    }

    /// The IP address of this socket address.
    #[verifier::when_used_as_spec(spec_ip)]
    pub fn ip(&self) -> (r: IpAddr)
        ensures
            r == self.spec_ip(),
    {
        match self {
            SocketAddr::V4 { ip, .. } => IpAddr::V4(*ip),
            SocketAddr::V6 { ip, .. } => IpAddr::V6(*ip),
        }
    }

    /// The port of this socket address.
    #[verifier::when_used_as_spec(spec_port)]
    pub fn port(&self) -> (r: u16)
        ensures
            r == self.spec_port(),
    {
        match self {
            SocketAddr::V4 { port, .. } => *port,
            SocketAddr::V6 { port, .. } => *port,
        }
    }

    /// Replaces the port of this socket address.
    pub fn set_port(&mut self, port: u16)
        ensures
            *final(self) == old(self).with_port(port),
    {
        let r = match *self {
            SocketAddr::V4 { ip, .. } => SocketAddr::V4 { ip, port },
            SocketAddr::V6 { ip, flowinfo, scope_id, .. } => SocketAddr::V6 {
                ip,
                port,
                flowinfo,
                scope_id,
            },
        };
        *self = r;
    }

    /// Whether this is an IPv4 socket address.
    pub fn is_ipv4(&self) -> (r: bool)
        ensures
            r == (*self is V4),
    {
        match self {
            SocketAddr::V4 { .. } => true,
            SocketAddr::V6 { .. } => false,
        }
    }

    /// Whether this is an IPv6 socket address.
    pub fn is_ipv6(&self) -> (r: bool)
        ensures
            r == (*self is V6),
    {
        match self {
            SocketAddr::V4 { .. } => false,
            SocketAddr::V6 { .. } => true,
        }
    }
}

} // verus!
