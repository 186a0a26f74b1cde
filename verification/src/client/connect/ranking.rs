//! The per-domain record of known addresses, ranked by how fast connecting
//! to them has been, and the delays with which a connector tries them.
use vstd::prelude::*;
use std::cmp::Ordering;
use crate::net::{IpAddr, SocketAddr, ip_less};
use crate::table::StrTable;

verus! {

/// Where an address of a domain came from.
#[derive(Clone, Copy, Debug, PartialEq, Eq, Structural, Hash, PartialOrd, Ord)]
pub enum AddrSource {
    HttpDNS,
    LocalDNS,
    HardCodeIp,
}

impl AddrSource {
    /// The position of the source in the order of sources.
    pub open spec fn rank(self) -> int {
        match self {
            AddrSource::HttpDNS => 0,
            AddrSource::LocalDNS => 1,
            AddrSource::HardCodeIp => 2,
        }
    }

    fn rank_of(&self) -> (r: u8)
        ensures
            r == self.rank(),
    {
        match self {
            AddrSource::HttpDNS => 0,
            AddrSource::LocalDNS => 1,
            AddrSource::HardCodeIp => 2,
        }
    }
}

/// What a ranked address holds: the address, where it came from, and the
/// costs in milliseconds of the last connections to it, oldest first.
pub ghost struct RankedAddr {
    pub addr: IpAddr,
    pub source: AddrSource,
    pub costs: Seq<i32>,
}

/// The sum of a sequence of costs.
pub open spec fn cost_sum(c: Seq<i32>) -> int
    decreases c.len(),
{
    if c.len() == 0 {
        0
    } else {
        cost_sum(c.drop_last()) + c.last()
    }
}

/// The sum of the costs fits in an `i32`.
pub open spec fn sum_fits(c: Seq<i32>) -> bool {
    i32::MIN <= cost_sum(c) <= i32::MAX
}

/// The sums of the costs of every address of `s` fit in an `i32`.
pub open spec fn all_sums_fit(s: Seq<RankedAddr>) -> bool {
    forall|i: int| 0 <= i < s.len() ==> sum_fits(#[trigger] s[i].costs)
}

/// Integer division rounding toward zero.
pub open spec fn quotient_toward_zero(a: int, b: int) -> int {
    if a >= 0 {
        a / b
    } else {
        -((-a) / b)
    }
}

/// The average cost, or `i32::MAX` for an address never connected to.
pub open spec fn avg_cost_of(c: Seq<i32>) -> int {
    if c.len() == 0 {
        i32::MAX as int
    } else {
        quotient_toward_zero(cost_sum(c), c.len() as int)
    }
}

pub open spec fn min_int(a: int, b: int) -> int {
    if a <= b {
        a
    } else {
        b
    }
}

pub open spec fn max_int(a: int, b: int) -> int {
    if a >= b {
        a
    } else {
        b
    }
}

/// How long to wait before trying an address: 300 ms for an address never
/// connected to, else its average cost plus 250 ms, at most 600 ms.
pub open spec fn delay_time_of(c: Seq<i32>) -> int {
    if c.len() == 0 {
        300
    } else {
        min_int(600, avg_cost_of(c) + 250)
    }
}

/// The delay of an address can be computed in an `i32`: the sum of its
/// costs and its average cost plus 250 ms fit.
pub open spec fn delay_fits(c: Seq<i32>) -> bool {
    c.len() == 0 || (sum_fits(c) && avg_cost_of(c) + 250 <= i32::MAX)
}

/// The costs after recording one more connection: the new cost is
/// appended and the oldest dropped when more than three would be kept.
pub open spec fn with_cost(c: Seq<i32>, cost: i32) -> Seq<i32> {
    if c.len() + 1 > 3 {
        c.push(cost).drop_first()
    } else {
        c.push(cost)
    }
}

/// The ranking of addresses: by average cost, then by source, then by address.
pub open spec fn precedes(a: RankedAddr, b: RankedAddr) -> bool {
    let ca = avg_cost_of(a.costs);
    let cb = avg_cost_of(b.costs);
    ||| ca < cb
    ||| ca == cb && a.source.rank() < b.source.rank()
    ||| ca == cb && a.source == b.source && ip_less(a.addr, b.addr)
}

/// An address of a domain with its connection record.
#[derive(Debug, PartialEq, Eq, PartialOrd)]
pub struct SortedAddr {
    addr: IpAddr,
    source: AddrSource,
    connect_costs: Vec<i32>,
}

impl View for SortedAddr {
    type V = RankedAddr;

    closed spec fn view(&self) -> RankedAddr {
        RankedAddr { addr: self.addr, source: self.source, costs: self.connect_costs@ }
    }
}

impl Clone for SortedAddr {
    /// The same address, source and costs.
    fn clone(&self) -> (r: Self)
        ensures
            r@ == self@,
    {
        proof {
            use_type_invariant(self);
        }
        let costs = self.connect_costs.clone();
        assert(costs@ =~= self.connect_costs@);
        SortedAddr { addr: self.addr, source: self.source, connect_costs: costs }
    }
}

impl SortedAddr {
    #[verifier::type_invariant]
    closed spec fn costs_are_kept_small(self) -> bool {
        self.connect_costs@.len() <= 3
    }

    /// A new address, never connected to yet.
    pub fn new(addr: IpAddr, source: AddrSource) -> (r: SortedAddr)
        ensures
            r@ == (RankedAddr { addr, source, costs: Seq::<i32>::empty() }),
    {
        let r = SortedAddr { addr, source, connect_costs: Vec::new() };
        assert(r.connect_costs@ =~= Seq::<i32>::empty());
        r
    }

    /// The IP address.
    pub fn addr(&self) -> (r: IpAddr)
        ensures
            r == self@.addr,
    {
        self.addr
    }

    /// Where the address came from.
    pub fn source(&self) -> (r: AddrSource)
        ensures
            r == self@.source,
    {
        self.source
    }

    /// The average of the recorded costs, `i32::MAX` when there is none.
    fn avg_cost(&self) -> (r: i32)
        ensures
            r == avg_cost_of(self@.costs),
    {
        proof {
            use_type_invariant(self);
        }
        let n = self.connect_costs.len();
        if n == 0 {
            return i32::MAX;
        }
        let mut sum: i64 = 0;
        let mut i: usize = 0;
        while i < n
            invariant
                n == self.connect_costs@.len() <= 3,
                i <= n,
                sum as int == cost_sum(self.connect_costs@.take(i as int)),
                -2147483648 * i <= sum <= 2147483647 * i,
            decreases n - i,
        {
            assert(self.connect_costs@.take(i + 1).drop_last() =~= self.connect_costs@.take(i as int));
            sum = sum + (self.connect_costs[i] as i64);
            i = i + 1;
        }
        assert(self.connect_costs@.take(n as int) =~= self.connect_costs@);
        let len = n as i64;
        let q: i64 = if sum >= 0 {
            let u: i64 = sum / len;
            assert(0 <= u <= sum && u <= 2147483647) by (nonlinear_arith)
                requires
                    0 <= sum <= 2147483647 * len,
                    1 <= len,
                    u == sum / len,
            ;
            u
        } else {
            let neg: i64 = -sum;
            let u: i64 = neg / len;
            assert(0 <= u <= neg && u <= 2147483648) by (nonlinear_arith)
                requires
                    0 <= neg <= 2147483648 * len,
                    1 <= len,
                    u == neg / len,
            ;
            -u
        };
        q as i32
    }

    /// Whether the sum of the recorded costs fits in an `i32`.
    fn sum_fits(&self) -> (r: bool)
        ensures
            r == sum_fits(self@.costs),
    {
        proof {
            use_type_invariant(self);
        }
        let n = self.connect_costs.len();
        let mut sum: i64 = 0;
        let mut i: usize = 0;
        while i < n
            invariant
                n == self.connect_costs@.len() <= 3,
                i <= n,
                sum as int == cost_sum(self.connect_costs@.take(i as int)),
                -2147483648 * i <= sum <= 2147483647 * i,
            decreases n - i,
        {
            assert(self.connect_costs@.take(i + 1).drop_last() =~= self.connect_costs@.take(i as int));
            sum = sum + (self.connect_costs[i] as i64);
            i = i + 1;
        }
        assert(self.connect_costs@.take(n as int) =~= self.connect_costs@);
        -2147483648 <= sum && sum <= 2147483647
    }

    /// Whether a connection to this address has been recorded.
    fn has_been_used(&self) -> (r: bool)
        ensures
            r == (self@.costs.len() > 0),
    {
        !self.connect_costs.is_empty()
    }

    /// How long to wait before trying this address.
    fn delay_time(&self) -> (r: i32)
        requires
            delay_fits(self@.costs),
        ensures
            r == delay_time_of(self@.costs),
            r <= 600,
    {
        if self.connect_costs.is_empty() {
            return 300;
        }
        let avg = self.avg_cost();
        let d = avg + 250;
        if d < 600 {
            d
        } else {
            600
        }
    }

    /// Whether this address comes strictly before `other` in the ranking.
    pub fn precedes(&self, other: &SortedAddr) -> (r: bool)
        ensures
            r == precedes(self@, other@),
    {
        let a = self.avg_cost();
        let b = other.avg_cost();
        if a != b {
            return a < b;
        }
        if self.source != other.source {
            return self.source.rank_of() < other.source.rank_of();
        }
        self.addr.less_than(&other.addr)
    }

    /// Whether this and `other` hold the same address, source and costs.
    pub fn same_as(&self, other: &SortedAddr) -> (r: bool)
        ensures
            r == (self@ == other@),
    {
        if self.addr != other.addr || self.source != other.source {
            return false;
        }
        let n = self.connect_costs.len();
        if n != other.connect_costs.len() {
            return false;
        }
        let mut i: usize = 0;
        while i < n
            invariant
                n == self.connect_costs@.len() == other.connect_costs@.len(),
                i <= n,
                forall|j: int| 0 <= j < i ==> self.connect_costs@[j] == other.connect_costs@[j],
            decreases n - i,
        {
            if self.connect_costs[i] != other.connect_costs[i] {
                return false;
            }
            i = i + 1;
        }
        assert(self.connect_costs@ =~= other.connect_costs@);
        true
    }

    /// This address with one more connection cost recorded.
    pub fn with_cost(self, cost_ms: i32) -> (r: SortedAddr)
        ensures
            r@ == (RankedAddr { costs: with_cost(self@.costs, cost_ms), ..self@ }),
    {
        proof {
            use_type_invariant(&self);
        }
        let SortedAddr { addr, source, connect_costs } = self;
        let mut costs = connect_costs;
        costs.push(cost_ms);
        if 3 < costs.len() {
            costs.remove(0);
        }
        let r = SortedAddr { addr, source, connect_costs: costs };
        assert(r.connect_costs@ =~= with_cost(self@.costs, cost_ms));
        r
    }

    /// The ranking order: `Equal` for the same address, otherwise by
    /// average cost, then source, then address. Addresses with different IP
    /// addresses are compared by the sums of their costs, which must fit in
    /// an `i32`.
    pub fn cmp(&self, other: &SortedAddr) -> (r: Ordering)
        requires
            self@.addr == other@.addr || (sum_fits(self@.costs) && sum_fits(other@.costs)),
        ensures
            match r {
                Ordering::Equal => self@.addr == other@.addr,
                Ordering::Less => self@.addr != other@.addr && precedes(self@, other@),
                Ordering::Greater => self@.addr != other@.addr && precedes(other@, self@),
            },
    {
        if self.addr == other.addr {
            return Ordering::Equal;
        }
        if self.precedes(other) {
            Ordering::Less
        } else {
            Ordering::Greater
        }
    }
}


/// Whether an address did not come from `source`.
pub open spec fn not_from(source: AddrSource) -> spec_fn(RankedAddr) -> bool {
    |e: RankedAddr| e.source != source
}

/// Whether an address came from `source`.
pub open spec fn from_source(source: AddrSource) -> spec_fn(RankedAddr) -> bool {
    |e: RankedAddr| e.source == source
}

/// The ranked views of a sequence of addresses.
pub open spec fn ranked(s: Seq<SortedAddr>) -> Seq<RankedAddr> {
    s.map_values(|e: SortedAddr| e@)
}

/// No IP address occurs twice.
pub open spec fn distinct_addrs(s: Seq<RankedAddr>) -> bool {
    forall|i: int, j: int| 0 <= i < j < s.len() ==> #[trigger] s[i].addr != #[trigger] s[j].addr
}

/// No address holds more than three costs.
pub open spec fn costs_bounded(s: Seq<RankedAddr>) -> bool {
    forall|i: int| 0 <= i < s.len() ==> (#[trigger] s[i]).costs.len() <= 3
}

proof fn lemma_filter_keeps_bounded(s: Seq<RankedAddr>, p: spec_fn(RankedAddr) -> bool)
    requires
        costs_bounded(s),
    ensures
        costs_bounded(s.filter(p)),
{
    let f = s.filter(p);
    assert forall|i: int| 0 <= i < f.len() implies (#[trigger] f[i]).costs.len() <= 3 by {
        assert(f.contains(f[i]));
        s.lemma_filter_contains_rev(p, f[i]);
        let j = choose|j: int| 0 <= j < s.len() && s[j] == f[i];
        assert(s[j].costs.len() <= 3);
    }
}

/// Some element holds the IP address `a`.
pub open spec fn has_addr(s: Seq<RankedAddr>, a: IpAddr) -> bool {
    exists|i: int| 0 <= i < s.len() && #[trigger] s[i].addr == a
}

pub proof fn lemma_filter_keeps_distinct(s: Seq<RankedAddr>, p: spec_fn(RankedAddr) -> bool)
    requires
        distinct_addrs(s),
    ensures
        distinct_addrs(s.filter(p)),
    decreases s.len(),
{
    reveal(Seq::filter);
    if s.len() > 0 {
        let t = s.drop_last();
        assert(distinct_addrs(t)) by {
            assert forall|i: int, j: int| 0 <= i < j < t.len() implies #[trigger] t[i].addr != #[trigger] t[j].addr by {
                assert(t[i] == s[i] && t[j] == s[j]);
            }
        }
        lemma_filter_keeps_distinct(t, p);
        if p(s.last()) {
            let f = t.filter(p);
            assert forall|i: int| 0 <= i < f.len() implies #[trigger] f[i].addr != s.last().addr by {
                assert(f.contains(f[i]));
                t.lemma_filter_contains_rev(p, f[i]);
                let j = choose|j: int| 0 <= j < t.len() && t[j] == f[i];
                assert(s[j] == t[j]);
            }
            let g = f.push(s.last());
            assert forall|i: int, j: int| 0 <= i < j < g.len() implies #[trigger] g[i].addr != #[trigger] g[j].addr by {
                if j == g.len() - 1 {
                    assert(g[i] == f[i]);
                } else {
                    assert(g[i] == f[i] && g[j] == f[j]);
                }
            }
        }
    }
}

/// The addresses known for each domain.
pub struct DomainAddrTable {
    domains: StrTable<Vec<SortedAddr>>,
}

impl View for DomainAddrTable {
    type V = Map<Seq<char>, Seq<RankedAddr>>;

    closed spec fn view(&self) -> Map<Seq<char>, Seq<RankedAddr>> {
        Map::new(
            |k: Seq<char>| self.domains@.contains_key(k),
            |k: Seq<char>| ranked(self.domains@[k]@),
        )
    }
}

impl DomainAddrTable {
    /// The table is consistent, no domain holds an IP address twice, and
    /// no address holds more than three costs.
    pub closed spec fn wf(self) -> bool {
        &&& self.domains.well_formed()
        &&& forall|k: Seq<char>| #[trigger] self.domains@.contains_key(k) ==> distinct_addrs(ranked(self.domains@[k]@))
        &&& forall|k: Seq<char>| #[trigger] self.domains@.contains_key(k) ==> costs_bounded(ranked(self.domains@[k]@))
    }

    /// In a table, each domain holds an IP address at most once, and each
    /// address at most three costs.
    pub proof fn lemma_wf_entries(self)
        requires
            self.wf(),
        ensures
            forall|k: Seq<char>| #[trigger] self@.contains_key(k) ==> distinct_addrs(self@[k]) && costs_bounded(self@[k]),
    {
    }

    /// An empty table.
    pub fn new() -> (t: DomainAddrTable)
        ensures
            t.wf(),
            t@ == Map::<Seq<char>, Seq<RankedAddr>>::empty(),
    {
        let t = DomainAddrTable { domains: StrTable::new() };
        assert(t@ =~= Map::<Seq<char>, Seq<RankedAddr>>::empty());
        t
    }

    /// The table's contents with the entry of `domain` taken out.
    fn take_entry(&mut self, domain: &str) -> (r: Vec<SortedAddr>)
        requires
            old(self).wf(),
        ensures
            final(self).wf(),
            final(self)@ == old(self)@.remove(domain@),
            ranked(r@) == (if old(self)@.contains_key(domain@) {
                old(self)@[domain@]
            } else {
                Seq::<RankedAddr>::empty()
            }),
            distinct_addrs(ranked(r@)),
            costs_bounded(ranked(r@)),
    {
        let ghost pre = *self;
        let r = match self.domains.remove(domain) {
            Some(e) => e,
            None => Vec::new(),
        };
        assert(self@ =~= pre@.remove(domain@));
        proof {
            if !pre@.contains_key(domain@) {
                assert(ranked(r@) =~= Seq::<RankedAddr>::empty());
            }
        }
        r
    }

    /// Stores `entry` as the addresses of `domain`.
    fn put_entry(&mut self, domain: String, entry: Vec<SortedAddr>)
        requires
            old(self).wf(),
            distinct_addrs(ranked(entry@)),
            costs_bounded(ranked(entry@)),
        ensures
            final(self).wf(),
            final(self)@ == old(self)@.insert(domain@, ranked(entry@)),
    {
        let ghost pre = *self;
        let ghost e = entry;
        self.domains.insert(domain, entry);
        assert(self@ =~= pre@.insert(domain@, ranked(e@)));
    }
}

/// Splits `entry` into the addresses that did not come from `source` and
/// those that did, each in the order of `entry`.
fn partition_by_source(entry: Vec<SortedAddr>, source: AddrSource) -> (r: (Vec<SortedAddr>, Vec<SortedAddr>))
    ensures
        ranked(r.0@) == ranked(entry@).filter(not_from(source)),
        ranked(r.1@) == ranked(entry@).filter(from_source(source)),
{
    let ghost orig = entry@;
    let mut keep: Vec<SortedAddr> = Vec::new();
    let mut removed: Vec<SortedAddr> = Vec::new();
    assert(ranked(orig.take(0)) =~= Seq::<RankedAddr>::empty());
    proof {
        reveal(Seq::filter);
    }
    for e in it: entry
        invariant
            it.seq() == orig,
            ranked(keep@) == ranked(orig.take(it.index())).filter(not_from(source)),
            ranked(removed@) == ranked(orig.take(it.index())).filter(from_source(source)),
    {
        let ghost i = it.index();
        proof {
            reveal(Seq::filter);
            assert(e == orig[i]);
            assert(ranked(orig.take(i + 1)).drop_last() =~= ranked(orig.take(i)));
            assert(ranked(orig.take(i + 1)).last() == e@);
            assert(ranked(orig.take(i + 1)).filter(not_from(source)) == (if not_from(source)(e@) {
                ranked(orig.take(i)).filter(not_from(source)).push(e@)
            } else {
                ranked(orig.take(i)).filter(not_from(source))
            }));
            assert(ranked(orig.take(i + 1)).filter(from_source(source)) == (if from_source(source)(e@) {
                ranked(orig.take(i)).filter(from_source(source)).push(e@)
            } else {
                ranked(orig.take(i)).filter(from_source(source))
            }));
        }
        if e.source == source {
            removed.push(e);
            assert(ranked(removed@) =~= ranked(orig.take(i)).filter(from_source(source)).push(e@));
        } else {
            keep.push(e);
            assert(ranked(keep@) =~= ranked(orig.take(i)).filter(not_from(source)).push(e@));
        }
    }
    assert(orig.take(orig.len() as int) =~= orig);
    (keep, removed)
}

/// Removes from the entry of `domain` the addresses that came from
/// `source`, and hands them back. A domain without an entry is left as it is.
pub fn remove_old_domain_sorted_addrs(
    table: &mut DomainAddrTable,
    domain: &String,
    source: AddrSource,
) -> (removed: Vec<SortedAddr>)
    requires
        old(table).wf(),
    ensures
        final(table).wf(),
        old(table)@.contains_key(domain@) ==> {
            &&& final(table)@ == old(table)@.insert(
                domain@,
                old(table)@[domain@].filter(not_from(source)),
            )
            &&& ranked(removed@) == old(table)@[domain@].filter(from_source(source))
        },
        !old(table)@.contains_key(domain@) ==> final(table)@ == old(table)@ && removed@.len() == 0,
{
    let ghost pre = *table;
    if !table.domains.get(domain.as_str()).is_some() {
        assert(pre@ =~= pre@);
        return Vec::new();
    }
    let entry = table.take_entry(domain.as_str());
    let (keep, removed) = partition_by_source(entry, source);
    proof {
        lemma_filter_keeps_distinct(pre@[domain@], not_from(source));
        lemma_filter_keeps_bounded(pre@[domain@], not_from(source));
    }
    table.put_entry(domain.clone(), keep);
    assert(table@ =~= pre@.insert(domain@, pre@[domain@].filter(not_from(source))));
    removed
}


/// `x` inserted into `s` after every element whose IP address is not greater.
pub open spec fn insert_by_addr(s: Seq<RankedAddr>, x: RankedAddr) -> Seq<RankedAddr>
    decreases s.len(),
{
    if s.len() == 0 {
        seq![x]
    } else if ip_less(x.addr, s.last().addr) {
        insert_by_addr(s.drop_last(), x).push(s.last())
    } else {
        s.push(x)
    }
}

/// `s` sorted by IP address, stably: addresses that are equal keep their order.
pub open spec fn sort_by_addr(s: Seq<RankedAddr>) -> Seq<RankedAddr>
    decreases s.len(),
{
    if s.len() == 0 {
        s
    } else {
        insert_by_addr(sort_by_addr(s.drop_last()), s.last())
    }
}

/// `xs` added in order to `e`, each unless `e` already holds its IP address.
pub open spec fn add_absent(e: Seq<RankedAddr>, xs: Seq<RankedAddr>) -> Seq<RankedAddr>
    decreases xs.len(),
{
    if xs.len() == 0 {
        e
    } else {
        let r = add_absent(e, xs.drop_last());
        if has_addr(r, xs.last().addr) {
            r
        } else {
            r.push(xs.last())
        }
    }
}

/// The addresses that a domain holds after addresses `xs` from `source` are
/// recorded for it: those of other sources stay, those of `source` are
/// dropped, and the four lowest of `xs` by IP address are added where
/// their address is not already held.
pub open spec fn entry_after_insert(
    table: Map<Seq<char>, Seq<RankedAddr>>,
    domain: Seq<char>,
    xs: Seq<RankedAddr>,
    source: AddrSource,
) -> Seq<RankedAddr> {
    let base = if table.contains_key(domain) {
        table[domain].filter(not_from(source))
    } else {
        Seq::empty()
    };
    let sorted = sort_by_addr(xs);
    add_absent(base, if sorted.len() > 4 { sorted.take(4) } else { sorted })
}

proof fn lemma_insert_by_addr_at(s: Seq<RankedAddr>, x: RankedAddr, p: int)
    requires
        0 <= p <= s.len(),
        forall|q: int| p <= q < s.len() ==> ip_less(x.addr, #[trigger] s[q].addr),
        p == 0 || !ip_less(x.addr, s[p - 1].addr),
    ensures
        insert_by_addr(s, x) == s.insert(p, x),
    decreases s.len(),
{
    if s.len() == 0 {
        assert(s.insert(p, x) =~= seq![x]);
    } else if p == s.len() {
        assert(s.insert(p, x) =~= s.push(x));
    } else {
        let t = s.drop_last();
        assert forall|q: int| p <= q < t.len() implies ip_less(x.addr, #[trigger] t[q].addr) by {
            assert(t[q] == s[q]);
        }
        if p > 0 {
            assert(t[p - 1] == s[p - 1]);
        }
        assert(ip_less(x.addr, s[s.len() - 1].addr));
        lemma_insert_by_addr_at(t, x, p);
        assert(t.insert(p, x).push(s.last()) =~= s.insert(p, x));
    }
}

pub proof fn lemma_sort_by_addr_len(s: Seq<RankedAddr>)
    ensures
        sort_by_addr(s).len() == s.len(),
    decreases s.len(),
{
    if s.len() > 0 {
        lemma_sort_by_addr_len(s.drop_last());
        lemma_insert_by_addr_len(sort_by_addr(s.drop_last()), s.last());
    }
}

proof fn lemma_insert_by_addr_len(s: Seq<RankedAddr>, x: RankedAddr)
    ensures
        insert_by_addr(s, x).len() == s.len() + 1,
    decreases s.len(),
{
    if s.len() > 0 && ip_less(x.addr, s.last().addr) {
        lemma_insert_by_addr_len(s.drop_last(), x);
    }
}

proof fn lemma_add_absent_distinct(e: Seq<RankedAddr>, xs: Seq<RankedAddr>)
    requires
        distinct_addrs(e),
    ensures
        distinct_addrs(add_absent(e, xs)),
    decreases xs.len(),
{
    if xs.len() > 0 {
        lemma_add_absent_distinct(e, xs.drop_last());
        let r = add_absent(e, xs.drop_last());
        if !has_addr(r, xs.last().addr) {
            let g = r.push(xs.last());
            assert forall|i: int, j: int| 0 <= i < j < g.len() implies #[trigger] g[i].addr != #[trigger] g[j].addr by {
                if j == g.len() - 1 {
                    assert(g[i] == r[i]);
                } else {
                    assert(g[i] == r[i] && g[j] == r[j]);
                }
            }
        }
    }
}

/// The elements of `v`, moved into a new vector sorted stably by IP address.
fn sort_addrs(v: Vec<SortedAddr>) -> (r: Vec<SortedAddr>)
    ensures
        ranked(r@) == sort_by_addr(ranked(v@)),
{
    let ghost orig = v@;
    let mut r: Vec<SortedAddr> = Vec::new();
    assert(ranked(orig.take(0)) =~= Seq::<RankedAddr>::empty());
    for x in it: v
        invariant
            it.seq() == orig,
            ranked(r@) == sort_by_addr(ranked(orig.take(it.index()))),
    {
        let ghost i = it.index();
        let ghost before = ranked(r@);
        let mut p = r.len();
        while p > 0 && x.addr.less_than(&r[p - 1].addr)
            invariant
                p <= r@.len(),
                ranked(r@) == before,
                forall|q: int| p <= q < r@.len() ==> ip_less(x@.addr, #[trigger] before[q].addr),
            decreases p,
        {
            assert(before[p - 1] == r@[p - 1]@);
            p = p - 1;
        }
        proof {
            if p > 0 {
                assert(before[p - 1] == r@[p - 1]@);
            }
            lemma_insert_by_addr_at(before, x@, p as int);
            assert(ranked(orig.take(i + 1)).drop_last() =~= ranked(orig.take(i)));
            assert(ranked(orig.take(i + 1)).last() == x@);
        }
        r.insert(p, x);
        assert(ranked(r@) =~= before.insert(p as int, x@));
    }
    assert(orig.take(orig.len() as int) =~= orig);
    r
}

/// The position of an address in `addrs` with the IP address `addr`.
fn find_addr(addrs: &Vec<SortedAddr>, addr: IpAddr) -> (r: Option<usize>)
    ensures
        match r {
            Some(i) => i < addrs@.len() && addrs@[i as int]@.addr == addr,
            None => !has_addr(ranked(addrs@), addr),
        },
{
    let mut i: usize = 0;
    while i < addrs.len()
        invariant
            i <= addrs@.len(),
            forall|j: int| 0 <= j < i ==> #[trigger] addrs@[j]@.addr != addr,
        decreases addrs@.len() - i,
    {
        if addrs[i].addr == addr {
            return Some(i);
        }
        i = i + 1;
    }
    assert forall|j: int| 0 <= j < ranked(addrs@).len() implies #[trigger] ranked(addrs@)[j].addr != addr by {
        assert(ranked(addrs@)[j] == addrs@[j]@);
    }
    None
}

/// Adds `a` to `addrs` unless an address with the same IP is already there.
fn push_if_absent(addrs: &mut Vec<SortedAddr>, a: SortedAddr)
    requires
        costs_bounded(ranked(old(addrs)@)),
    ensures
        costs_bounded(ranked(final(addrs)@)),
        ranked(final(addrs)@) == (if has_addr(ranked(old(addrs)@), a@.addr) {
            ranked(old(addrs)@)
        } else {
            ranked(old(addrs)@).push(a@)
        }),
{
    match find_addr(addrs, a.addr) {
        Some(i) => {
            assert(ranked(addrs@)[i as int].addr == a@.addr);
        },
        None => {
            let ghost pre = ranked(addrs@);
            proof {
                use_type_invariant(&a);
            }
            addrs.push(a);
            assert(ranked(addrs@) =~= pre.push(a@));
        },
    }
}

/// The first position in `addrs` of an address equal to `a` in every
/// respect, or `None` where there is none.
fn find_same(addrs: &Vec<SortedAddr>, a: &SortedAddr) -> (r: Option<usize>)
    ensures
        r matches Some(i) ==> i < addrs@.len() && addrs@[i as int]@ == a@,
        r matches Some(i) ==> forall|j: int| 0 <= j < i ==> #[trigger] addrs@[j]@ != a@,
        r is None ==> forall|j: int| 0 <= j < addrs@.len() ==> #[trigger] addrs@[j]@ != a@,
{
    let mut i: usize = 0;
    while i < addrs.len()
        invariant
            i <= addrs@.len(),
            forall|j: int| 0 <= j < i ==> #[trigger] addrs@[j]@ != a@,
        decreases addrs@.len() - i,
    {
        if addrs[i].same_as(a) {
            return Some(i);
        }
        i = i + 1;
    }
    None
}

/// Records the addresses `sorted_addrs`, found for `domain` from `source`:
/// the addresses that `source` gave before are dropped, the four lowest of
/// `sorted_addrs` by IP address are added, and an address already held
/// from another source keeps its record. A domain without an entry gets one.
pub fn insert_domain_sorted_addrs(
    table: &mut DomainAddrTable,
    domain: String,
    sorted_addrs: Vec<SortedAddr>,
    source: AddrSource,
)
    requires
        old(table).wf(),
    ensures
        final(table).wf(),
        final(table)@ == old(table)@.insert(
            domain@,
            entry_after_insert(old(table)@, domain@, ranked(sorted_addrs@), source),
        ),
{
    let ghost pre = table@;
    let ghost xs = ranked(sorted_addrs@);
    let mut old_addrs = remove_old_domain_sorted_addrs(table, &domain, source);
    let mut sorted = sort_addrs(sorted_addrs);
    proof {
        lemma_sort_by_addr_len(xs);
    }
    let ghost full = ranked(sorted@);
    sorted.truncate(4);
    let ghost taken = ranked(sorted@);
    assert(taken =~= (if full.len() > 4 { full.take(4) } else { full }));
    let ghost base = if pre.contains_key(domain@) {
        pre[domain@].filter(not_from(source))
    } else {
        Seq::<RankedAddr>::empty()
    };
    let mut entry = table.take_entry(domain.as_str());
    assert(ranked(entry@) == base);
    assert(taken.take(0) =~= Seq::<RankedAddr>::empty());
    for addr in it: sorted
        invariant
            it.seq() == sorted@,
            ranked(it.seq()) == taken,
            ranked(entry@) == add_absent(base, taken.take(it.index())),
            costs_bounded(ranked(entry@)),
    {
        let ghost i = it.index();
        let ghost before = ranked(entry@);
        proof {
            assert(taken[i] == addr@);
            assert(taken.take(i + 1).drop_last() =~= taken.take(i));
        }
        match find_same(&old_addrs, &addr) {
            Some(k) => {
                let old_addr = old_addrs.remove(k);
                push_if_absent(&mut entry, old_addr);
            },
            None => {
                push_if_absent(&mut entry, addr);
            },
        }
    }
    assert(taken.take(taken.len() as int) =~= taken);
    proof {
        lemma_filter_keeps_distinct_opt(pre, domain@, source);
        lemma_add_absent_distinct(base, taken);
    }
    table.put_entry(domain, entry);
}

proof fn lemma_filter_keeps_distinct_opt(
    table: Map<Seq<char>, Seq<RankedAddr>>,
    domain: Seq<char>,
    source: AddrSource,
)
    requires
        table.contains_key(domain) ==> distinct_addrs(table[domain]),
    ensures
        distinct_addrs(
            if table.contains_key(domain) {
                table[domain].filter(not_from(source))
            } else {
                Seq::<RankedAddr>::empty()
            },
        ),
{
    if table.contains_key(domain) {
        lemma_filter_keeps_distinct(table[domain], not_from(source));
    }
}


/// `e` with one more connection cost recorded.
pub open spec fn record_cost(e: RankedAddr, cost_ms: i32) -> RankedAddr {
    RankedAddr { costs: with_cost(e.costs, cost_ms), ..e }
}

/// The addresses of `entry` after a connection to `addr` that cost
/// `cost_ms`: the address `addr` has the cost recorded, the others are
/// unchanged.
pub open spec fn entry_after_cost(entry: Seq<RankedAddr>, addr: IpAddr, cost_ms: i32) -> Seq<RankedAddr> {
    entry.map_values(|e: RankedAddr| if e.addr == addr { record_cost(e, cost_ms) } else { e })
}

/// The contents of a table after a connection to `addr` for `domain` that
/// cost `cost_ms`: a domain the table does not hold is left alone.
pub open spec fn table_after_cost(
    table: Map<Seq<char>, Seq<RankedAddr>>,
    domain: Seq<char>,
    addr: IpAddr,
    cost_ms: i32,
) -> Map<Seq<char>, Seq<RankedAddr>> {
    if table.contains_key(domain) {
        table.insert(domain, entry_after_cost(table[domain], addr, cost_ms))
    } else {
        table
    }
}

/// Where the domain holds another address than `addr`, so that the updated
/// address is compared with it, the costs kept for `addr` after recording
/// `cost_ms` sum to an `i32`.
pub open spec fn cost_fits(
    table: Map<Seq<char>, Seq<RankedAddr>>,
    domain: Seq<char>,
    addr: IpAddr,
    cost_ms: i32,
) -> bool {
    table.contains_key(domain) && table[domain].len() > 1 ==> forall|i: int|
        0 <= i < table[domain].len() && #[trigger] table[domain][i].addr == addr
            ==> sum_fits(with_cost(table[domain][i].costs, cost_ms))
}

/// Takes the address with the IP address of `addr` out of `addrs`, and hands
/// it back with the position it had.
fn take_sorted_addr(addrs: &mut Vec<SortedAddr>, addr: IpAddr) -> (r: Option<(usize, SortedAddr)>)
    ensures
        match r {
            Some((i, a)) => {
                &&& i < old(addrs)@.len()
                &&& a == old(addrs)@[i as int]
                &&& a@.addr == addr
                &&& final(addrs)@ == old(addrs)@.remove(i as int)
            },
            None => !has_addr(ranked(old(addrs)@), addr) && final(addrs)@ == old(addrs)@,
        },
{
    match find_addr(addrs, addr) {
        Some(i) => {
            let a = addrs.remove(i);
            Some((i, a))
        },
        None => None,
    }
}

/// Records that connecting to `addr` for `domain` took `cost_ms`
/// milliseconds; only the three latest costs of an address are kept. A
/// domain or an address that the table does not hold is left alone.
pub fn update_domain_sorted_addr_cost(
    table: &mut DomainAddrTable,
    domain: &str,
    addr: IpAddr,
    cost_ms: i32,
)
    requires
        old(table).wf(),
        cost_fits(old(table)@, domain@, addr, cost_ms),
    ensures
        final(table).wf(),
        final(table)@ == table_after_cost(old(table)@, domain@, addr, cost_ms),
{
    let ghost pre = table@;
    if !table.domains.get(domain).is_some() {
        return;
    }
    let mut addrs = table.take_entry(domain);
    let ghost entry = ranked(addrs@);
    let ghost orig = addrs@;
    match take_sorted_addr(&mut addrs, addr) {
        Some((i, found)) => {
            proof {
                assert(entry[i as int] == found@);
                assert(entry[i as int].addr == addr);
            }
            let updated = found.with_cost(cost_ms);
            addrs.insert(i, updated);
            proof {
                assert(addrs@ =~= orig.update(i as int, updated));
                assert forall|j: int| 0 <= j < entry.len() && j != i implies #[trigger] entry[j].addr != addr by {
                    if j < i {
                        assert(entry[j].addr != entry[i as int].addr);
                    } else {
                        assert(entry[i as int].addr != entry[j].addr);
                    }
                }
                assert(ranked(addrs@) =~= entry_after_cost(entry, addr, cost_ms));
                assert forall|a: int, b: int| 0 <= a < b < ranked(addrs@).len() implies
                    #[trigger] ranked(addrs@)[a].addr != #[trigger] ranked(addrs@)[b].addr by {
                    assert(ranked(addrs@)[a].addr == entry[a].addr);
                    assert(ranked(addrs@)[b].addr == entry[b].addr);
                }
            }
            let owned = domain.to_owned();
            table.put_entry(owned, addrs);
        },
        None => {
            proof {
                assert forall|j: int| 0 <= j < entry.len() implies #[trigger] entry[j].addr != addr by {}
                assert(entry_after_cost(entry, addr, cost_ms) =~= entry);
            }
            let owned = domain.to_owned();
            table.put_entry(owned, addrs);
        },
    }
}


/// The position of the first address in the ranking among the first `n`
/// of `s`, leaving out position `skip`; -1 where there is none.
pub open spec fn best_index(s: Seq<RankedAddr>, n: int, skip: int) -> int
    decreases n,
{
    if n <= 0 {
        -1
    } else {
        let m = best_index(s, n - 1, skip);
        if n - 1 == skip {
            m
        } else if m < 0 || precedes(s[n - 1], s[m]) {
            n - 1
        } else {
            m
        }
    }
}

/// The position of the fastest address of `s`.
pub open spec fn fastest_index(s: Seq<RankedAddr>) -> int {
    best_index(s, s.len() as int, -1)
}

/// The position of the second fastest address of `s`.
pub open spec fn second_index(s: Seq<RankedAddr>) -> int {
    best_index(s, s.len() as int, fastest_index(s))
}

/// The ranking is a strict total order on addresses with different IPs.
pub proof fn lemma_precedes_order(a: RankedAddr, b: RankedAddr, c: RankedAddr)
    ensures
        !precedes(a, a),
        precedes(a, b) ==> !precedes(b, a),
        precedes(a, b) && precedes(b, c) ==> precedes(a, c),
        a.addr != b.addr ==> precedes(a, b) || precedes(b, a),
{
}

/// `best_index` finds the address that comes before every other one
/// considered, and finds one wherever there is one to consider.
pub proof fn lemma_best_index(s: Seq<RankedAddr>, n: int, skip: int)
    requires
        distinct_addrs(s),
        0 <= n <= s.len(),
    ensures
        best_index(s, n, skip) >= -1,
        best_index(s, n, skip) == -1 <==> (n == 0 || (n == 1 && skip == 0)),
        best_index(s, n, skip) >= 0 ==> {
            let m = best_index(s, n, skip);
            &&& 0 <= m < n
            &&& m != skip
            &&& forall|q: int| 0 <= q < n && q != skip && q != m ==> precedes(s[m], #[trigger] s[q])
        },
    decreases n,
{
    if n > 0 {
        lemma_best_index(s, n - 1, skip);
        let m = best_index(s, n - 1, skip);
        if n - 1 == skip {
            assert(best_index(s, n, skip) == m);
            if m >= 0 {
                assert forall|q: int| 0 <= q < n && q != skip && q != m implies precedes(s[m], #[trigger] s[q]) by {
                    assert(q < n - 1);
                }
            }
        } else if m < 0 {
            assert(best_index(s, n, skip) == n - 1);
            assert forall|q: int| 0 <= q < n && q != skip && q != n - 1 implies precedes(s[n - 1], #[trigger] s[q]) by {
                assert(q < n - 1);
            }
        } else if precedes(s[n - 1], s[m]) {
            assert(best_index(s, n, skip) == n - 1);
            assert forall|q: int| 0 <= q < n && q != skip && q != n - 1 implies precedes(s[n - 1], #[trigger] s[q]) by {
                if q != m {
                    lemma_precedes_order(s[n - 1], s[m], s[q]);
                }
            }
        } else {
            assert(best_index(s, n, skip) == m);
            assert(s[m].addr != s[n - 1].addr);
            lemma_precedes_order(s[m], s[n - 1], s[m]);
            assert(precedes(s[m], s[n - 1]));
            assert forall|q: int| 0 <= q < n && q != skip && q != m implies precedes(s[m], #[trigger] s[q]) by {
                if q < n - 1 {
                }
            }
        }
    }
}

/// An address with the time to wait before connecting to it.
#[derive(Clone, Copy, Debug, PartialEq, Eq, Structural)]
pub struct SocketAddrWithDelayTime {
    pub addr: SocketAddr,
    pub delay_time: i32,
    pub source: AddrSource,
}

pub open spec fn clamp(d: int, lo: int, hi: int) -> int {
    min_int(hi, max_int(lo, d))
}

/// The addresses to try for a domain with the addresses `entry`, when the
/// first address to try is `first_addr`: that address at once, then the
/// fastest known address, then the second fastest (or `first_addr` again),
/// each after a delay that grows from the delays of those before it.
pub open spec fn delayed_addrs(entry: Seq<RankedAddr>, first_addr: SocketAddr) -> Seq<SocketAddrWithDelayTime> {
    let port = first_addr.spec_port();
    let first = SocketAddrWithDelayTime { addr: first_addr, delay_time: 0, source: AddrSource::LocalDNS };
    if entry.len() == 0 {
        seq![first]
    } else {
        let f = entry[fastest_index(entry)];
        let b1 = max_int(0, delay_time_of(f.costs));
        let second = SocketAddrWithDelayTime {
            addr: SocketAddr::spec_new(f.addr, port),
            delay_time: clamp(b1, 300, 600) as i32,
            source: f.source,
        };
        if entry.len() > 1 {
            let g = entry[second_index(entry)];
            let b2 = max_int(b1, delay_time_of(g.costs));
            seq![first, second, SocketAddrWithDelayTime {
                addr: SocketAddr::spec_new(g.addr, port),
                delay_time: clamp(2 * b2, 600, 1200) as i32,
                source: g.source,
            }]
        } else {
            seq![first, second, SocketAddrWithDelayTime {
                addr: first_addr,
                delay_time: clamp(2 * b1, 600, 1200) as i32,
                source: AddrSource::LocalDNS,
            }]
        }
    }
}

/// The delays of the fastest and second fastest addresses can be computed.
pub open spec fn delays_fit(entry: Seq<RankedAddr>) -> bool {
    &&& entry.len() > 0 ==> delay_fits(entry[fastest_index(entry)].costs)
    &&& entry.len() > 1 ==> delay_fits(entry[second_index(entry)].costs)
}

impl SocketAddrWithDelayTime {
    /// The address `sorted_addr` at `port`, with its own delay and source.
    fn from_sorted_addr(sorted_addr: &SortedAddr, port: u16) -> (r: Self)
        requires
            delay_fits(sorted_addr@.costs),
        ensures
            r == (SocketAddrWithDelayTime {
                addr: SocketAddr::spec_new(sorted_addr@.addr, port),
                delay_time: delay_time_of(sorted_addr@.costs) as i32,
                source: sorted_addr@.source,
            }),
            r.delay_time == delay_time_of(sorted_addr@.costs),
            r.delay_time <= 600,
    {
        SocketAddrWithDelayTime {
            addr: SocketAddr::new(sorted_addr.addr, port),
            delay_time: sorted_addr.delay_time(),
            source: sorted_addr.source,
        }
    }

    /// An address found by the local resolver, with the given delay.
    fn new(addr: SocketAddr, delay_time: i32) -> (r: Self)
        ensures
            r == (SocketAddrWithDelayTime { addr, delay_time, source: AddrSource::LocalDNS }),
    {
        SocketAddrWithDelayTime { addr, delay_time, source: AddrSource::LocalDNS }
    }
}

/// `delay_time` brought into the range `min..=max`.
fn get_delay_time(delay_time: i32, min: i32, max: i32) -> (r: i32)
    ensures
        r == clamp(delay_time as int, min as int, max as int),
{
    let t = if min >= delay_time {
        min
    } else {
        delay_time
    };
    if max <= t {
        max
    } else {
        t
    }
}

/// The position of the fastest address in `addrs` other than `skip`.
fn best_position(addrs: &Vec<SortedAddr>, skip: Option<usize>) -> (r: Option<usize>)
    ensures
        match r {
            Some(i) => i == best_index(ranked(addrs@), addrs@.len() as int, match skip { Some(k) => k as int, None => -1 }),
            None => best_index(ranked(addrs@), addrs@.len() as int, match skip { Some(k) => k as int, None => -1 }) == -1,
        },
{
    let ghost s = ranked(addrs@);
    let ghost sk: int = match skip { Some(k) => k as int, None => -1 };
    let mut best: Option<usize> = None;
    let mut i: usize = 0;
    while i < addrs.len()
        invariant
            i <= addrs@.len(),
            s == ranked(addrs@),
            sk == (match skip { Some(k) => k as int, None => -1 }),
            match best {
                Some(b) => b as int == best_index(s, i as int, sk) && b < i,
                None => best_index(s, i as int, sk) == -1,
            },
        decreases addrs@.len() - i,
    {
        let is_skip = match skip { Some(k) => k == i, None => false };
        if !is_skip {
            match best {
                Some(b) => {
                    if addrs[i].precedes(&addrs[b]) {
                        best = Some(i);
                    }
                },
                None => {
                    best = Some(i);
                },
            }
        }
        i = i + 1;
    }
    best
}

/// The addresses to try for `domain` in a table with the contents `table`,
/// when the first address to try is `first_addr`.
pub open spec fn sorted_addrs_of(
    table: Map<Seq<char>, Seq<RankedAddr>>,
    domain: Seq<char>,
    first_addr: SocketAddr,
) -> Seq<SocketAddrWithDelayTime> {
    if table.contains_key(domain) {
        delayed_addrs(table[domain], first_addr)
    } else {
        seq![SocketAddrWithDelayTime { addr: first_addr, delay_time: 0, source: AddrSource::LocalDNS }]
    }
}

/// The addresses to try for `domain`, each with the time to wait before
/// trying it: `first_addr` at once, then the two fastest addresses known
/// for the domain at the port of `first_addr` (or `first_addr` again when
/// only one is known). A domain with no known address gives `first_addr` alone.
pub fn get_sorted_addrs(
    table: &DomainAddrTable,
    domain: &str,
    first_addr: SocketAddr,
) -> (r: Vec<SocketAddrWithDelayTime>)
    requires
        table.wf(),
        table@.contains_key(domain@) ==> delays_fit(table@[domain@]),
    ensures
        r@ == sorted_addrs_of(table@, domain@, first_addr),
{
    let port = first_addr.port();
    let first_addr = SocketAddrWithDelayTime::new(first_addr, 0);
    let addrs = match table.domains.get(domain) {
        Some(addrs) => addrs,
        None => {
            return vec![first_addr];
        },
    };
    let ghost entry = ranked(addrs@);
    assert(entry == table@[domain@]);
    if addrs.len() == 0 {
        let r = vec![first_addr];
        assert(r@ =~= delayed_addrs(entry, first_addr.addr));
        return r;
    }
    let mut sorted_addrs = vec![first_addr];
    let fastest = match best_position(addrs, None) {
        Some(i) => i,
        None => {
            proof {
                lemma_best_index(entry, entry.len() as int, -1);
            }
            return vec![first_addr];
        },
    };
    proof {
        lemma_best_index(entry, entry.len() as int, -1);
        assert(entry[fastest as int] == addrs@[fastest as int]@);
    }
    sorted_addrs.push(SocketAddrWithDelayTime::from_sorted_addr(&addrs[fastest], port));
    if 1 < addrs.len() {
        let faster = match best_position(addrs, Some(fastest)) {
            Some(i) => i,
            None => {
                proof {
                    lemma_best_index(entry, entry.len() as int, fastest as int);
                }
                return vec![first_addr];
            },
        };
        proof {
            lemma_best_index(entry, entry.len() as int, fastest as int);
            assert(entry[faster as int] == addrs@[faster as int]@);
        }
        sorted_addrs.push(SocketAddrWithDelayTime::from_sorted_addr(&addrs[faster], port));
    } else {
        let again = sorted_addrs[0];
        sorted_addrs.push(again);
    }
    let ghost pre = sorted_addrs@;
    let mut base_delay_time: i32 = 0;
    let mut index: usize = 0;
    while index < sorted_addrs.len()
        invariant
            sorted_addrs@.len() == 3,
            pre.len() == 3,
            index <= 3,
            pre[0].delay_time == 0,
            pre[1].delay_time <= 600,
            pre[2].delay_time <= 600,
            base_delay_time == (if index == 0 {
                0
            } else if index == 1 {
                0
            } else if index == 2 {
                max_int(0, pre[1].delay_time as int)
            } else {
                max_int(max_int(0, pre[1].delay_time as int), pre[2].delay_time as int)
            }),
            forall|k: int| index <= k < 3 ==> #[trigger] sorted_addrs@[k] == pre[k],
            forall|k: int| 0 <= k < index ==> (#[trigger] sorted_addrs@[k]).addr == pre[k].addr
                && sorted_addrs@[k].source == pre[k].source,
            index > 0 ==> sorted_addrs@[0].delay_time == 0,
            index > 1 ==> sorted_addrs@[1].delay_time == clamp(max_int(0, pre[1].delay_time as int), 300, 600),
            index > 2 ==> sorted_addrs@[2].delay_time == clamp(
                2 * max_int(max_int(0, pre[1].delay_time as int), pre[2].delay_time as int),
                600,
                1200,
            ),
        decreases 3 - index,
    {
        let d = sorted_addrs[index].delay_time;
        if d > base_delay_time {
            base_delay_time = d;
        }
        if index == 0 {
            sorted_addrs[index].delay_time = 0;
        } else {
            let factor: i32 = if index == 1 { 1 } else { 2 };
            let t = get_delay_time(base_delay_time * factor, 300 * factor, 600 * factor);
            sorted_addrs[index].delay_time = t;
        }
        index = index + 1;
    }
    proof {
        assert(sorted_addrs@ =~= delayed_addrs(entry, first_addr.addr));
    }
    sorted_addrs
}


/// Sorted by IP address: no address is greater than one after it.
pub open spec fn sorted_by_addr(s: Seq<RankedAddr>) -> bool {
    forall|i: int, j: int| 0 <= i < j < s.len() ==> !ip_less(#[trigger] s[j].addr, #[trigger] s[i].addr)
}

proof fn lemma_insert_by_addr_multiset(s: Seq<RankedAddr>, x: RankedAddr)
    ensures
        insert_by_addr(s, x).to_multiset() == s.to_multiset().insert(x),
    decreases s.len(),
{
    broadcast use vstd::seq_lib::to_multiset_build;
    broadcast use vstd::multiset::group_multiset_axioms;

    if s.len() == 0 {
        assert(s =~= Seq::<RankedAddr>::empty());
        assert(seq![x] =~= Seq::<RankedAddr>::empty().push(x));
        assert(Seq::<RankedAddr>::empty().to_multiset() =~= vstd::multiset::Multiset::empty()) by {
            broadcast use vstd::seq_lib::group_to_multiset_ensures;
        }
    } else if ip_less(x.addr, s.last().addr) {
        let t = s.drop_last();
        lemma_insert_by_addr_multiset(t, x);
        assert(t.push(s.last()) =~= s);
        assert(insert_by_addr(s, x).to_multiset() =~= s.to_multiset().insert(x));
    }
}

proof fn lemma_insert_by_addr_sorted(s: Seq<RankedAddr>, x: RankedAddr)
    requires
        sorted_by_addr(s),
    ensures
        sorted_by_addr(insert_by_addr(s, x)),
    decreases s.len(),
{
    broadcast use vstd::seq_lib::group_to_multiset_ensures;

    if s.len() > 0 {
        let t = s.drop_last();
        let l = s.last();
        if ip_less(x.addr, l.addr) {
            assert(sorted_by_addr(t)) by {
                assert forall|i: int, j: int| 0 <= i < j < t.len() implies !ip_less(#[trigger] t[j].addr, #[trigger] t[i].addr) by {
                    assert(t[i] == s[i] && t[j] == s[j]);
                }
            }
            lemma_insert_by_addr_sorted(t, x);
            lemma_insert_by_addr_multiset(t, x);
            let u = insert_by_addr(t, x);
            let r = u.push(l);
            assert forall|i: int, j: int| 0 <= i < j < r.len() implies !ip_less(#[trigger] r[j].addr, #[trigger] r[i].addr) by {
                if j == r.len() - 1 {
                    assert(r[i] == u[i]);
                    assert(u.to_multiset().contains(u[i]));
                    if u[i] != x {
                        assert(t.to_multiset().contains(u[i]));
                        let k = choose|k: int| 0 <= k < t.len() && t[k] == u[i];
                        assert(s[k] == t[k]);
                        assert(!ip_less(s[s.len() - 1].addr, s[k].addr));
                    }
                } else {
                    assert(r[i] == u[i] && r[j] == u[j]);
                }
            }
        } else {
            let r = s.push(x);
            assert forall|i: int, j: int| 0 <= i < j < r.len() implies !ip_less(#[trigger] r[j].addr, #[trigger] r[i].addr) by {
                if j == r.len() - 1 {
                    assert(r[i] == s[i]);
                    if i < s.len() - 1 {
                        assert(!ip_less(s[s.len() - 1].addr, s[i].addr));
                    }
                } else {
                    assert(r[i] == s[i] && r[j] == s[j]);
                }
            }
        }
    }
}

/// Sorting by IP address gives the same addresses, in an order where no
/// address is greater than one after it.
pub proof fn law_sort_by_addr(s: Seq<RankedAddr>)
    ensures
        sort_by_addr(s).to_multiset() == s.to_multiset(),
        sorted_by_addr(sort_by_addr(s)),
        sort_by_addr(s).len() == s.len(),
    decreases s.len(),
{
    broadcast use vstd::seq_lib::to_multiset_build;
    broadcast use vstd::multiset::group_multiset_axioms;

    lemma_sort_by_addr_len(s);
    if s.len() > 0 {
        let t = s.drop_last();
        law_sort_by_addr(t);
        lemma_insert_by_addr_multiset(sort_by_addr(t), s.last());
        lemma_insert_by_addr_sorted(sort_by_addr(t), s.last());
        assert(t.push(s.last()) =~= s);
    }
}

proof fn lemma_add_absent_grows(e: Seq<RankedAddr>, xs: Seq<RankedAddr>)
    ensures
        add_absent(e, xs).len() <= e.len() + xs.len(),
        add_absent(e, xs).take(e.len() as int) == e,
        e.len() <= add_absent(e, xs).len(),
        forall|i: int| 0 <= i < xs.len() ==> has_addr(add_absent(e, xs), #[trigger] xs[i].addr),
    decreases xs.len(),
{
    if xs.len() == 0 {
        assert(e.take(e.len() as int) =~= e);
    } else {
        let ys = xs.drop_last();
        lemma_add_absent_grows(e, ys);
        let r = add_absent(e, ys);
        let r2 = add_absent(e, xs);
        if !has_addr(r, xs.last().addr) {
            assert(r2.take(e.len() as int) =~= r.take(e.len() as int));
        }
        assert forall|i: int| 0 <= i < xs.len() implies has_addr(r2, #[trigger] xs[i].addr) by {
            if i < xs.len() - 1 {
                assert(ys[i] == xs[i]);
                assert(has_addr(r, ys[i].addr));
                let k = choose|k: int| 0 <= k < r.len() && #[trigger] r[k].addr == ys[i].addr;
                assert(r2[k] == r[k]);
            } else if !has_addr(r, xs.last().addr) {
                assert(r2[r2.len() - 1] == xs.last());
            }
        }
    }
}

/// Recording addresses for a domain keeps the addresses of other sources,
/// in order and first, adds at most four, and afterwards holds an address
/// with the IP of each of the (at most four) lowest addresses offered.
pub proof fn law_insert_keeps_and_adds(
    table: Map<Seq<char>, Seq<RankedAddr>>,
    domain: Seq<char>,
    xs: Seq<RankedAddr>,
    source: AddrSource,
)
    ensures
        ({
            let base = if table.contains_key(domain) {
                table[domain].filter(not_from(source))
            } else {
                Seq::<RankedAddr>::empty()
            };
            let r = entry_after_insert(table, domain, xs, source);
            &&& r.take(base.len() as int) == base
            &&& base.len() <= r.len() <= base.len() + 4
            &&& forall|i: int| 0 <= i < xs.len() && i < 4 ==> has_addr(r, #[trigger] sort_by_addr(xs)[i].addr)
        }),
{
    lemma_sort_by_addr_len(xs);
    let base = if table.contains_key(domain) {
        table[domain].filter(not_from(source))
    } else {
        Seq::<RankedAddr>::empty()
    };
    let sorted = sort_by_addr(xs);
    let taken = if sorted.len() > 4 { sorted.take(4) } else { sorted };
    lemma_add_absent_grows(base, taken);
    assert forall|i: int| 0 <= i < xs.len() && i < 4 implies has_addr(
        entry_after_insert(table, domain, xs, source),
        #[trigger] sort_by_addr(xs)[i].addr,
    ) by {
        assert(taken[i] == sorted[i]);
    }
}

/// Removing the addresses of a source splits the entry: what stays and what
/// is handed back together are the entry's addresses.
pub proof fn law_remove_old_splits(entry: Seq<RankedAddr>, source: AddrSource)
    ensures
        entry.filter(not_from(source)).to_multiset().add(entry.filter(from_source(source)).to_multiset())
            == entry.to_multiset(),
        forall|i: int| 0 <= i < entry.filter(not_from(source)).len()
            ==> (#[trigger] entry.filter(not_from(source))[i]).source != source,
        forall|i: int| 0 <= i < entry.filter(from_source(source)).len()
            ==> (#[trigger] entry.filter(from_source(source))[i]).source == source,
{
    assert forall|x: RankedAddr| #[trigger] from_source(source)(x) == !not_from(source)(x) by {}
    crate::seqs::lemma_filter_split_multiset(entry, not_from(source), from_source(source));
    crate::seqs::lemma_filter_all(entry, not_from(source));
    crate::seqs::lemma_filter_all(entry, from_source(source));
}

/// Recording a connection cost changes only the address connected to: its
/// latest cost is the new one and at most three are kept; every address
/// keeps its place, IP and source. So the entry keeps its size, no address
/// holds more than three costs, and no IP address comes to be held twice.
pub proof fn law_cost_recorded(entry: Seq<RankedAddr>, addr: IpAddr, cost_ms: i32)
    requires
        forall|i: int| 0 <= i < entry.len() ==> (#[trigger] entry[i]).costs.len() <= 3,
    ensures
        ({
            let r = entry_after_cost(entry, addr, cost_ms);
            &&& r.len() == entry.len()
            &&& forall|i: int| 0 <= i < r.len() ==> (#[trigger] r[i]).addr == entry[i].addr
                && r[i].source == entry[i].source
            &&& forall|i: int| 0 <= i < r.len() && entry[i].addr != addr ==> #[trigger] r[i] == entry[i]
            &&& forall|i: int| 0 <= i < r.len() && entry[i].addr == addr ==> {
                &&& (#[trigger] r[i]).costs.len() <= 3
                &&& r[i].costs.last() == cost_ms
            }
            &&& forall|i: int| 0 <= i < r.len() ==> (#[trigger] r[i]).costs.len() <= 3
            &&& distinct_addrs(entry) ==> distinct_addrs(r)
        }),
{
    let r = entry_after_cost(entry, addr, cost_ms);
    if distinct_addrs(entry) {
        assert forall|a: int, b: int| 0 <= a < b < r.len() implies #[trigger] r[a].addr != #[trigger] r[b].addr by {
            assert(r[a].addr == entry[a].addr);
            assert(r[b].addr == entry[b].addr);
        }
    }
}

/// The average cost of an address is the mean of its costs, rounded toward
/// zero, and `i32::MAX` where it was never connected to.
pub proof fn law_average_is_mean(c: Seq<i32>)
    ensures
        c.len() == 0 ==> avg_cost_of(c) == i32::MAX,
        c.len() > 0 && cost_sum(c) >= 0 ==> avg_cost_of(c) >= 0 && avg_cost_of(c) * c.len() <= cost_sum(c)
            < (avg_cost_of(c) + 1) * c.len(),
        c.len() > 0 && cost_sum(c) < 0 ==> avg_cost_of(c) <= 0 && (avg_cost_of(c) - 1) * c.len() < cost_sum(c)
            <= avg_cost_of(c) * c.len(),
{
    if c.len() > 0 {
        let s = cost_sum(c);
        let n = c.len() as int;
        if s >= 0 {
            let q = s / n;
            assert(q >= 0 && q * n <= s < (q + 1) * n) by (nonlinear_arith)
                requires
                    s >= 0,
                    n >= 1,
                    q == s / n,
            ;
        } else {
            let q = (-s) / n;
            assert(q >= 0 && q * n <= -s < (q + 1) * n) by (nonlinear_arith)
                requires
                    -s > 0,
                    n >= 1,
                    q == (-s) / n,
            ;
            assert((-q - 1) * n < s <= (-q) * n) by (nonlinear_arith)
                requires
                    q * n <= -s < (q + 1) * n,
            ;
        }
    }
}

/// Addresses are ranked by average cost first: of two addresses with
/// different IP addresses, the one with the lower average cost comes first.
pub proof fn law_rank_by_average(a: RankedAddr, b: RankedAddr)
    requires
        a.addr != b.addr,
        avg_cost_of(a.costs) < avg_cost_of(b.costs),
    ensures
        precedes(a, b),
        !precedes(b, a),
{
}

/// Among addresses with the same average cost, those found by HTTP DNS come
/// first, then those of the local resolver, then hard-coded ones.
pub proof fn law_rank_by_source(a: RankedAddr, b: RankedAddr)
    requires
        avg_cost_of(a.costs) == avg_cost_of(b.costs),
        a.source != b.source,
    ensures
        precedes(a, b) <==> (a.source == AddrSource::HttpDNS || (a.source == AddrSource::LocalDNS
            && b.source == AddrSource::HardCodeIp)),
{
}

/// Among addresses with the same average cost and source, the lower IP
/// address comes first, IPv4 addresses before IPv6 ones.
pub proof fn law_rank_by_address(a: RankedAddr, b: RankedAddr)
    requires
        avg_cost_of(a.costs) == avg_cost_of(b.costs),
        a.source == b.source,
    ensures
        precedes(a, b) <==> match (a.addr, b.addr) {
            (IpAddr::V4(x), IpAddr::V4(y)) => x < y,
            (IpAddr::V4(_), IpAddr::V6(_)) => true,
            (IpAddr::V6(_), IpAddr::V4(_)) => false,
            (IpAddr::V6(x), IpAddr::V6(y)) => x < y,
        },
{
}

/// The fastest address of an entry has the least average cost of all, and
/// the second fastest the least of all but the fastest.
pub proof fn law_fastest_least_average(entry: Seq<RankedAddr>)
    requires
        distinct_addrs(entry),
        entry.len() > 0,
    ensures
        forall|q: int| 0 <= q < entry.len() ==> avg_cost_of(entry[fastest_index(entry)].costs)
            <= avg_cost_of(#[trigger] entry[q].costs),
        entry.len() > 1 ==> forall|q: int| 0 <= q < entry.len() && q != fastest_index(entry)
            ==> avg_cost_of(entry[second_index(entry)].costs) <= avg_cost_of(#[trigger] entry[q].costs),
{
    law_fastest_first(entry);
}

/// The addresses to try carry the IP address, at the port of the first
/// address, and the source of known addresses: the second is a known
/// address that comes before every other one; where two or more are known,
/// the third is another known address that comes before every other but
/// the second; where one is known, the third is the first address again.
pub proof fn law_delayed_addrs_sources(entry: Seq<RankedAddr>, first_addr: SocketAddr)
    requires
        distinct_addrs(entry),
    ensures
        ({
            let r = delayed_addrs(entry, first_addr);
            let port = first_addr.spec_port();
            &&& entry.len() > 0 ==> exists|i: int| #![trigger entry[i]]
                0 <= i < entry.len()
                && r[1].addr == SocketAddr::spec_new(entry[i].addr, port)
                && r[1].source == entry[i].source
                && forall|q: int| 0 <= q < entry.len() && q != i ==> precedes(entry[i], #[trigger] entry[q])
            &&& entry.len() > 1 ==> exists|i: int, j: int| #![trigger entry[i], entry[j]]
                0 <= i < entry.len() && 0 <= j < entry.len() && i != j
                && r[1].addr == SocketAddr::spec_new(entry[i].addr, port)
                && r[2].addr == SocketAddr::spec_new(entry[j].addr, port)
                && r[2].source == entry[j].source
                && forall|q: int| 0 <= q < entry.len() && q != i && q != j ==> precedes(entry[j], #[trigger] entry[q])
            &&& entry.len() == 1 ==> r[2].addr == first_addr && r[2].source == AddrSource::LocalDNS
        }),
{
    if entry.len() > 0 {
        law_fastest_first(entry);
        let i = fastest_index(entry);
        assert(entry[i] == entry[i]);
        if entry.len() > 1 {
            let j = second_index(entry);
            assert(entry[i] == entry[i] && entry[j] == entry[j]);
        }
    }
}

/// Sorting by IP address puts every IPv4 address before every IPv6 one.
pub proof fn law_sort_puts_ipv4_first(s: Seq<RankedAddr>)
    ensures
        forall|i: int, j: int| 0 <= i < j < sort_by_addr(s).len() && (#[trigger] sort_by_addr(s)[i]).addr is V6
            ==> (#[trigger] sort_by_addr(s)[j]).addr is V6,
{
    law_sort_by_addr(s);
}

/// Recording a connection cost keeps the bounds of every entry of a table:
/// the same domains are held, each entry keeps its size, no domain comes to
/// hold an IP address twice, and no address more than three costs.
pub proof fn law_update_keeps_bounds(
    table: Map<Seq<char>, Seq<RankedAddr>>,
    domain: Seq<char>,
    addr: IpAddr,
    cost_ms: i32,
)
    requires
        forall|k: Seq<char>| #[trigger] table.contains_key(k) ==> distinct_addrs(table[k]) && costs_bounded(table[k]),
    ensures
        ({
            let t = table_after_cost(table, domain, addr, cost_ms);
            &&& t.dom() == table.dom()
            &&& forall|k: Seq<char>| #[trigger] t.contains_key(k) ==> {
                &&& t[k].len() == table[k].len()
                &&& distinct_addrs(t[k])
                &&& costs_bounded(t[k])
            }
        }),
{
    let t = table_after_cost(table, domain, addr, cost_ms);
    if table.contains_key(domain) {
        law_cost_recorded(table[domain], addr, cost_ms);
        assert(t.dom() =~= table.dom());
    }
}

/// The sum of costs each below `i32::MAX` is below `i32::MAX` times their number.
proof fn lemma_cost_sum_below(c: Seq<i32>)
    requires
        forall|i: int| 0 <= i < c.len() ==> #[trigger] c[i] < i32::MAX,
    ensures
        cost_sum(c) <= (i32::MAX - 1) * c.len(),
    decreases c.len(),
{
    if c.len() > 0 {
        let d = c.drop_last();
        assert forall|i: int| 0 <= i < d.len() implies #[trigger] d[i] < i32::MAX by {
            assert(d[i] == c[i]);
        }
        lemma_cost_sum_below(d);
        assert(c.last() == c[c.len() - 1]);
    }
}

/// Costs each below `i32::MAX` average below `i32::MAX`.
proof fn lemma_avg_below_max(c: Seq<i32>)
    requires
        c.len() > 0,
        forall|i: int| 0 <= i < c.len() ==> #[trigger] c[i] < i32::MAX,
    ensures
        avg_cost_of(c) < i32::MAX,
{
    lemma_cost_sum_below(c);
    let s = cost_sum(c);
    let n = c.len() as int;
    if s >= 0 {
        assert(s / n <= i32::MAX - 1) by (nonlinear_arith)
            requires
                0 <= s <= (i32::MAX - 1) * n,
                n >= 1,
        ;
    } else {
        assert((-s) / n >= 0) by (nonlinear_arith)
            requires
                -s > 0,
                n >= 1,
        ;
    }
}

/// Once a connection cost is recorded for an address, where every cost it
/// keeps is below `i32::MAX`, the address comes before every address of the
/// entry never connected to.
pub proof fn law_measured_before_unmeasured(entry: Seq<RankedAddr>, addr: IpAddr, cost_ms: i32)
    requires
        forall|i: int| 0 <= i < entry.len() && #[trigger] entry[i].addr == addr ==> {
            let w = with_cost(entry[i].costs, cost_ms);
            forall|k: int| 0 <= k < w.len() ==> #[trigger] w[k] < i32::MAX
        },
    ensures
        ({
            let r = entry_after_cost(entry, addr, cost_ms);
            forall|i: int, j: int| 0 <= i < r.len() && 0 <= j < r.len() && #[trigger] r[i].addr == addr
                && (#[trigger] r[j]).costs.len() == 0 ==> r[i].costs.len() > 0 && precedes(r[i], r[j])
        }),
{
    let r = entry_after_cost(entry, addr, cost_ms);
    assert forall|i: int, j: int| 0 <= i < r.len() && 0 <= j < r.len() && #[trigger] r[i].addr == addr
        && (#[trigger] r[j]).costs.len() == 0 implies r[i].costs.len() > 0 && precedes(r[i], r[j]) by {
        assert(entry[i].addr == addr);
        let w = with_cost(entry[i].costs, cost_ms);
        assert(r[i].costs == w);
        assert(forall|k: int| 0 <= k < w.len() ==> #[trigger] w[k] < i32::MAX);
        lemma_avg_below_max(w);
        assert(avg_cost_of(r[j].costs) == i32::MAX);
    }
}

/// The fastest address of an entry comes before every other one in the
/// ranking, and the second fastest before every one but the fastest.
pub proof fn law_fastest_first(entry: Seq<RankedAddr>)
    requires
        distinct_addrs(entry),
        entry.len() > 0,
    ensures
        0 <= fastest_index(entry) < entry.len(),
        forall|q: int| 0 <= q < entry.len() && q != fastest_index(entry)
            ==> precedes(entry[fastest_index(entry)], #[trigger] entry[q]),
        entry.len() > 1 ==> {
            &&& 0 <= second_index(entry) < entry.len()
            &&& second_index(entry) != fastest_index(entry)
            &&& forall|q: int| 0 <= q < entry.len() && q != fastest_index(entry) && q != second_index(entry)
                ==> precedes(entry[second_index(entry)], #[trigger] entry[q])
        },
{
    lemma_best_index(entry, entry.len() as int, -1);
    lemma_best_index(entry, entry.len() as int, fastest_index(entry));
}

/// Looking up the addresses to try reads the table and changes nothing (the
/// table is only borrowed), and what it gives depends on the entry of the
/// domain alone: two lookups of a domain whose entry is the same in both
/// tables, with the same first address, give the same addresses.
pub proof fn law_sorted_addrs_read_only(
    t1: Map<Seq<char>, Seq<RankedAddr>>,
    t2: Map<Seq<char>, Seq<RankedAddr>>,
    domain: Seq<char>,
    first_addr: SocketAddr,
)
    requires
        t1.contains_key(domain) == t2.contains_key(domain),
        t1.contains_key(domain) ==> t1[domain] == t2[domain],
    ensures
        sorted_addrs_of(t1, domain, first_addr) == sorted_addrs_of(t2, domain, first_addr),
{
}

/// The addresses to try start with the first address at once; where there
/// are more, there are three, the second after 300 to 600 ms and the third
/// after 600 to 1200 ms.
pub proof fn law_delays_grow(entry: Seq<RankedAddr>, first_addr: SocketAddr)
    ensures
        ({
            let r = delayed_addrs(entry, first_addr);
            &&& r.len() == 1 || r.len() == 3
            &&& r[0] == (SocketAddrWithDelayTime { addr: first_addr, delay_time: 0, source: AddrSource::LocalDNS })
            &&& r.len() == 1 <==> entry.len() == 0
            &&& r.len() == 3 ==> 300 <= r[1].delay_time <= 600 <= r[2].delay_time <= 1200
        }),
{
}


/// Whether recording a connection to `addr` for `domain` that cost
/// `cost_ms` keeps the costs of that address summing to an `i32`, where the
/// domain holds another address.
pub fn cost_update_fits(table: &DomainAddrTable, domain: &str, addr: IpAddr, cost_ms: i32) -> (r: bool)
    requires
        table.wf(),
    ensures
        r == cost_fits(table@, domain@, addr, cost_ms),
{
    let addrs = match table.domains.get(domain) {
        Some(a) => a,
        None => return true,
    };
    let ghost entry = ranked(addrs@);
    assert(entry == table@[domain@]);
    if addrs.len() <= 1 {
        return true;
    }
    match find_addr(addrs, addr) {
        None => {
            assert forall|i: int| 0 <= i < entry.len() implies #[trigger] entry[i].addr != addr by {}
            true
        },
        Some(i) => {
            let a = &addrs[i];
            proof {
                use_type_invariant(a);
                assert(entry[i as int] == a@);
                assert forall|j: int| 0 <= j < entry.len() && #[trigger] entry[j].addr == addr implies j == i by {
                    if j < i {
                        assert(entry[j].addr != entry[i as int].addr);
                    } else if j > i {
                        assert(entry[i as int].addr != entry[j].addr);
                    }
                }
            }
            let ghost c = a@.costs;
            let ghost w = with_cost(c, cost_ms);
            let n = a.connect_costs.len();
            let skip: usize = if n + 1 > 3 { 1 } else { 0 };
            let mut sum: i64 = 0;
            let mut k: usize = skip;
            while k < n
                invariant
                    n == c.len() <= 3,
                    skip <= 1,
                    skip == 1 ==> n == 3,
                    skip <= k <= n,
                    c == a.connect_costs@,
                    sum as int == cost_sum(c.subrange(skip as int, k as int)),
                    -2147483648 * (k - skip) <= sum <= 2147483647 * (k - skip),
                decreases n - k,
            {
                assert(c.subrange(skip as int, k + 1).drop_last() =~= c.subrange(skip as int, k as int));
                sum = sum + (a.connect_costs[k] as i64);
                k = k + 1;
            }
            proof {
                assert(w.drop_last() =~= c.subrange(skip as int, n as int));
                assert(w.last() == cost_ms);
            }
            let total = sum + (cost_ms as i64);
            -2147483648 <= total && total <= 2147483647
        },
    }
}

/// Whether the delays of the fastest and second fastest addresses of
/// `domain` can be computed in an `i32`.
pub fn delays_fit_for(table: &DomainAddrTable, domain: &str) -> (r: bool)
    requires
        table.wf(),
    ensures
        r == (table@.contains_key(domain@) ==> delays_fit(table@[domain@])),
{
    let addrs = match table.domains.get(domain) {
        Some(a) => a,
        None => return true,
    };
    let ghost entry = ranked(addrs@);
    assert(entry == table@[domain@]);
    proof {
        lemma_best_index(entry, entry.len() as int, -1);
    }
    let fastest = match best_position(addrs, None) {
        Some(i) => i,
        None => return true,
    };
    assert(entry[fastest as int] == addrs@[fastest as int]@);
    if !avg_delay_fits(&addrs[fastest]) {
        return false;
    }
    proof {
        lemma_best_index(entry, entry.len() as int, fastest as int);
    }
    match best_position(addrs, Some(fastest)) {
        Some(j) => {
            assert(entry[j as int] == addrs@[j as int]@);
            avg_delay_fits(&addrs[j])
        },
        None => true,
    }
}

/// Whether the delay of `a` can be computed in an `i32`.
fn avg_delay_fits(a: &SortedAddr) -> (r: bool)
    ensures
        r == delay_fits(a@.costs),
{
    if a.connect_costs.len() == 0 {
        return true;
    }
    if !a.sum_fits() {
        return false;
    }
    let avg = a.avg_cost();
    avg <= 2147483647 - 250
}

} // verus!
