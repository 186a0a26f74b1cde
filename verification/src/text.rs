//! Text helpers: the characters of a string, splitting at a separator,
//! and the grammar of IP address literals.
use vstd::prelude::*;

verus! {

/// The characters of `s`, in order.
pub fn chars_of(s: &str) -> (v: Vec<char>)
    ensures
        v@ == s@,
{
    let mut v: Vec<char> = Vec::new();
    for c in it: s.chars()
        invariant
            v@ == it.seq().take(it.index()),
    {
        v.push(c);
    }
    v
}

/// The fields of `s` between occurrences of `sep`, in order; a text with
/// `n` separators has `n + 1` fields, some of which may be empty.
pub open spec fn split_on(s: Seq<char>, sep: char) -> Seq<Seq<char>>
    decreases s.len(),
{
    if s.len() == 0 {
        seq![Seq::<char>::empty()]
    } else {
        let f = split_on(s.drop_last(), sep);
        if s.last() == sep {
            f.push(Seq::<char>::empty())
        } else {
            f.update(f.len() - 1, f.last().push(s.last()))
        }
    }
}

pub proof fn lemma_split_on_len(s: Seq<char>, sep: char)
    ensures
        split_on(s, sep).len() >= 1,
    decreases s.len(),
{
    if s.len() > 0 {
        lemma_split_on_len(s.drop_last(), sep);
    }
}

/// One step of splitting: the fields of `s.take(j + 1)` from those of `s.take(j)`.
pub proof fn lemma_split_on_step(s: Seq<char>, sep: char, j: int)
    requires
        0 <= j < s.len(),
    ensures
        split_on(s.take(j + 1), sep) == (if s[j] == sep {
            split_on(s.take(j), sep).push(Seq::<char>::empty())
        } else {
            split_on(s.take(j), sep).update(
                split_on(s.take(j), sep).len() - 1,
                split_on(s.take(j), sep).last().push(s[j]),
            )
        }),
{
    assert(s.take(j + 1).drop_last() =~= s.take(j));
}

/// Whether `c` is a decimal digit.
pub open spec fn is_dec_digit(c: char) -> bool {
    '0' <= c <= '9'
}

/// Whether `c` is a hexadecimal digit, in either case.
pub open spec fn is_hex_digit(c: char) -> bool {
    ||| '0' <= c <= '9'
    ||| 'a' <= c <= 'f'
    ||| 'A' <= c <= 'F'
}

/// The value of a hexadecimal digit.
pub open spec fn hex_digit_value(c: char) -> int {
    if '0' <= c <= '9' {
        c as int - '0' as int
    } else if 'a' <= c <= 'f' {
        c as int - 'a' as int + 10
    } else {
        c as int - 'A' as int + 10
    }
}

/// The value of a string of decimal digits.
pub open spec fn dec_value(t: Seq<char>) -> int
    decreases t.len(),
{
    if t.len() == 0 {
        0
    } else {
        dec_value(t.drop_last()) * 10 + (t.last() as int - '0' as int)
    }
}

/// The value of a string of hexadecimal digits.
pub open spec fn hex_value(t: Seq<char>) -> int
    decreases t.len(),
{
    if t.len() == 0 {
        0
    } else {
        hex_value(t.drop_last()) * 16 + hex_digit_value(t.last())
    }
}

/// A decimal octet of an IPv4 literal: one to three digits, no leading
/// zero unless the octet is `0` itself, and a value of at most 255.
pub open spec fn valid_octet(t: Seq<char>) -> bool {
    &&& 1 <= t.len() <= 3
    &&& forall|i: int| 0 <= i < t.len() ==> is_dec_digit(#[trigger] t[i])
    &&& (t.len() == 1 || t[0] != '0')
    &&& dec_value(t) <= 255
}

/// A group of an IPv6 literal: one to four hexadecimal digits.
pub open spec fn valid_group(t: Seq<char>) -> bool {
    &&& 1 <= t.len() <= 4
    &&& forall|i: int| 0 <= i < t.len() ==> is_hex_digit(#[trigger] t[i])
}

/// The IPv4 address that the text `s` denotes in dotted-decimal form
/// (four valid octets separated by dots), as its 32 bits.
pub open spec fn ipv4_text(s: Seq<char>) -> Option<u32> {
    let f = split_on(s, '.');
    if f.len() == 4 && (forall|k: int| 0 <= k < 4 ==> valid_octet(#[trigger] f[k])) {
        Some(
            crate::net::octets_value(
                dec_value(f[0]),
                dec_value(f[1]),
                dec_value(f[2]),
                dec_value(f[3]),
            ) as u32,
        )
    } else {
        None
    }
}

proof fn lemma_dec_value_push(t: Seq<char>, c: char)
    ensures
        dec_value(t.push(c)) == dec_value(t) * 10 + (c as int - '0' as int),
{
    assert(t.push(c).drop_last() =~= t);
}

proof fn lemma_hex_value_push(t: Seq<char>, c: char)
    ensures
        hex_value(t.push(c)) == hex_value(t) * 16 + hex_digit_value(c),
{
    assert(t.push(c).drop_last() =~= t);
}

proof fn lemma_dec_value_bound(t: Seq<char>)
    requires
        forall|i: int| 0 <= i < t.len() ==> is_dec_digit(#[trigger] t[i]),
    ensures
        0 <= dec_value(t),
        t.len() <= 3 ==> dec_value(t) < 1000,
        t.len() <= 2 ==> dec_value(t) < 100,
        t.len() <= 1 ==> dec_value(t) < 10,
    decreases t.len(),
{
    if t.len() > 0 {
        let u = t.drop_last();
        assert forall|i: int| 0 <= i < u.len() implies is_dec_digit(#[trigger] u[i]) by {
            assert(u[i] == t[i]);
        }
        lemma_dec_value_bound(u);
        assert(is_dec_digit(t[t.len() - 1]));
    }
}

proof fn lemma_hex_value_bound(t: Seq<char>)
    requires
        forall|i: int| 0 <= i < t.len() ==> is_hex_digit(#[trigger] t[i]),
    ensures
        0 <= hex_value(t),
        t.len() <= 4 ==> hex_value(t) < 65536,
        t.len() <= 3 ==> hex_value(t) < 4096,
        t.len() <= 2 ==> hex_value(t) < 256,
        t.len() <= 1 ==> hex_value(t) < 16,
    decreases t.len(),
{
    if t.len() > 0 {
        let u = t.drop_last();
        assert forall|i: int| 0 <= i < u.len() implies is_hex_digit(#[trigger] u[i]) by {
            assert(u[i] == t[i]);
        }
        lemma_hex_value_bound(u);
        assert(is_hex_digit(t[t.len() - 1]));
    }
}

/// The octet that the characters `s[lo..hi]` denote, if they form a valid octet.
pub fn parse_octet(s: &Vec<char>, lo: usize, hi: usize) -> (r: Option<u8>)
    requires
        lo <= hi <= s@.len(),
    ensures
        r == (if valid_octet(s@.subrange(lo as int, hi as int)) {
            Some(dec_value(s@.subrange(lo as int, hi as int)) as u8)
        } else {
            None
        }),
        r matches Some(v) ==> v as int == dec_value(s@.subrange(lo as int, hi as int)),
{
    let ghost t = s@.subrange(lo as int, hi as int);
    if hi - lo < 1 || hi - lo > 3 {
        return None;
    }
    let mut val: u32 = 0;
    let mut k: usize = lo;
    while k < hi
        invariant
            lo <= k <= hi <= s@.len(),
            hi - lo <= 3,
            t == s@.subrange(lo as int, hi as int),
            forall|i: int| lo <= i < k ==> is_dec_digit(#[trigger] s@[i]),
            val as int == dec_value(s@.subrange(lo as int, k as int)),
            val < 1000,
        decreases hi - k,
    {
        let c = s[k];
        if !('0' <= c && c <= '9') {
            assert(t[k - lo] == c);
            return None;
        }
        proof {
            assert(s@.subrange(lo as int, k + 1) =~= s@.subrange(lo as int, k as int).push(c));
            lemma_dec_value_push(s@.subrange(lo as int, k as int), c);
            let u = s@.subrange(lo as int, k + 1);
            assert forall|i: int| 0 <= i < u.len() implies is_dec_digit(#[trigger] u[i]) by {
                assert(u[i] == s@[lo + i]);
            }
            lemma_dec_value_bound(u);
        }
        val = val * 10 + ((c as u32) - ('0' as u32));
        k = k + 1;
    }
    assert(s@.subrange(lo as int, k as int) =~= t);
    if hi - lo > 1 && s[lo] == '0' {
        return None;
    }
    if val > 255 {
        return None;
    }
    Some(val as u8)
}


/// The group value that the characters `s[lo..hi]` denote, if they form a valid group.
pub fn parse_group(s: &Vec<char>, lo: usize, hi: usize) -> (r: Option<u16>)
    requires
        lo <= hi <= s@.len(),
    ensures
        r == (if valid_group(s@.subrange(lo as int, hi as int)) {
            Some(hex_value(s@.subrange(lo as int, hi as int)) as u16)
        } else {
            None
        }),
        r matches Some(v) ==> v as int == hex_value(s@.subrange(lo as int, hi as int)),
{
    let ghost t = s@.subrange(lo as int, hi as int);
    if hi - lo < 1 || hi - lo > 4 {
        return None;
    }
    let mut val: u32 = 0;
    let mut k: usize = lo;
    while k < hi
        invariant
            lo <= k <= hi <= s@.len(),
            hi - lo <= 4,
            t == s@.subrange(lo as int, hi as int),
            forall|i: int| lo <= i < k ==> is_hex_digit(#[trigger] s@[i]),
            val as int == hex_value(s@.subrange(lo as int, k as int)),
            val < 65536,
        decreases hi - k,
    {
        let c = s[k];
        let d: u32 = if '0' <= c && c <= '9' {
            (c as u32) - ('0' as u32)
        } else if 'a' <= c && c <= 'f' {
            (c as u32) - ('a' as u32) + 10
        } else if 'A' <= c && c <= 'F' {
            (c as u32) - ('A' as u32) + 10
        } else {
            assert(t[k - lo] == c);
            return None;
        };
        proof {
            assert(s@.subrange(lo as int, k + 1) =~= s@.subrange(lo as int, k as int).push(c));
            lemma_hex_value_push(s@.subrange(lo as int, k as int), c);
            let u = s@.subrange(lo as int, k + 1);
            assert forall|i: int| 0 <= i < u.len() implies is_hex_digit(#[trigger] u[i]) by {
                assert(u[i] == s@[lo + i]);
            }
            lemma_hex_value_bound(u);
        }
        val = val * 16 + d;
        k = k + 1;
    }
    assert(s@.subrange(lo as int, k as int) =~= t);
    Some(val as u16)
}

/// The IPv4 address that the characters `s[lo..hi]` denote.
pub fn parse_ipv4_range(s: &Vec<char>, lo: usize, hi: usize) -> (r: Option<u32>)
    requires
        lo <= hi <= s@.len(),
    ensures
        r == ipv4_text(s@.subrange(lo as int, hi as int)),
{
    let ghost t = s@.subrange(lo as int, hi as int);
    let mut vals: Vec<u8> = Vec::new();
    let mut count: usize = 0;
    let mut bad = false;
    let mut start: usize = lo;
    let mut j: usize = lo;
    assert(t.take(0) =~= Seq::<char>::empty());
    assert(s@.subrange(lo as int, lo as int) =~= Seq::<char>::empty());
    while j < hi
        invariant
            lo <= start <= j <= hi <= s@.len(),
            t == s@.subrange(lo as int, hi as int),
            count <= j - lo,
            split_on(t.take(j - lo), '.').len() == count + 1,
            split_on(t.take(j - lo), '.').last() == s@.subrange(start as int, j as int),
            !bad <==> (forall|k: int| 0 <= k < count ==> valid_octet(#[trigger] split_on(t.take(j - lo), '.')[k])),
            vals@.len() == (if count < 4 { count } else { 4 }),
            forall|k: int| 0 <= k < vals@.len() && valid_octet(split_on(t.take(j - lo), '.')[k])
                ==> vals@[k] as int == dec_value(#[trigger] split_on(t.take(j - lo), '.')[k]),
        decreases hi - j,
    {
        let ghost f = split_on(t.take(j - lo), '.');
        let ghost f_old = split_on(t.take(j - lo), '.');
        let ghost old_start = start;
        let ghost old_count = count;
        proof {
            lemma_split_on_step(t, '.', j - lo);
            assert(t[j - lo] == s@[j as int]);
        }
        if s[j] == '.' {
            let o = parse_octet(s, start, j);
            match o {
                Some(v) => {
                    assert(v as int == dec_value(s@.subrange(start as int, j as int)));
                    if count < 4 {
                        vals.push(v);
                        assert(vals@[count as int] as int == dec_value(s@.subrange(start as int, j as int)));
                    }
                },
                None => {
                    bad = true;
                    if count < 4 {
                        vals.push(0);
                    }
                },
            }
            count = count + 1;
            start = j + 1;
            assert(s@.subrange(start as int, (j + 1) as int) =~= Seq::<char>::empty());
        } else {
            assert(s@.subrange(start as int, (j + 1) as int) =~= s@.subrange(start as int, j as int).push(s@[j as int]));
        }
        j = j + 1;
        proof {
            let f_new = split_on(t.take(j - lo), '.');
            assert forall|k: int| 0 <= k < count implies #[trigger] f_new[k] == (if k < old_count {
                f_old[k]
            } else {
                s@.subrange(old_start as int, (j - 1) as int)
            }) by {}
            if bad {
                if forall|k: int| 0 <= k < count ==> valid_octet(#[trigger] f_new[k]) {
                    if count == old_count {
                        assert forall|k: int| 0 <= k < old_count implies valid_octet(#[trigger] f_old[k]) by {
                            assert(f_new[k] == f_old[k]);
                        }
                    } else {
                        assert forall|k: int| 0 <= k < old_count implies valid_octet(#[trigger] f_old[k]) by {
                            assert(f_new[k] == f_old[k]);
                        }
                        assert(f_new[old_count as int] == s@.subrange(old_start as int, (j - 1) as int));
                    }
                }
            } else {
                assert forall|k: int| 0 <= k < count implies valid_octet(#[trigger] f_new[k]) by {
                    if k < old_count {
                        assert(f_new[k] == f_old[k]);
                    }
                }
            }
            assert forall|k: int| 0 <= k < vals@.len() && valid_octet(f_new[k])
                implies vals@[k] as int == dec_value(#[trigger] f_new[k]) by {
                if k < old_count {
                    assert(f_new[k] == f_old[k]);
                } else {
                    assert(f_new[k] == s@.subrange(old_start as int, (j - 1) as int));
                }
            }
        }
    }
    assert(t.take(hi - lo) =~= t);
    if count != 3 || bad {
        return None;
    }
    match parse_octet(s, start, hi) {
        Some(d) => {
            let ghost f = split_on(t, '.');
            assert(valid_octet(f[0]) && valid_octet(f[1]) && valid_octet(f[2]));
            assert(f[3] == s@.subrange(start as int, hi as int));
            assert(vals@[0] as int == dec_value(f[0]));
            assert(vals@[1] as int == dec_value(f[1]));
            assert(vals@[2] as int == dec_value(f[2]));
            let a = vals[0] as u32;
            let b = vals[1] as u32;
            let c = vals[2] as u32;
            Some(a * 16777216 + b * 65536 + c * 256 + (d as u32))
        },
        None => None,
    }
}

/// The groups of an IPv6 literal part: every field a valid group, or, where
/// `v4_last` allows it, every field but the last a valid group and the last
/// an IPv4 literal, which stands for two groups.
pub open spec fn groups_value(fs: Seq<Seq<char>>, v4_last: bool) -> Option<Seq<u16>> {
    if forall|k: int| 0 <= k < fs.len() ==> valid_group(#[trigger] fs[k]) {
        Some(Seq::new(fs.len(), |k: int| hex_value(fs[k]) as u16))
    } else if v4_last && fs.len() >= 1 && (forall|k: int|
        0 <= k < fs.len() - 1 ==> valid_group(#[trigger] fs[k])) && ipv4_text(fs.last()) is Some {
        let v = ipv4_text(fs.last()).unwrap();
        Some(
            Seq::new((fs.len() - 1) as nat, |k: int| hex_value(fs[k]) as u16) + seq![
                (v / 65536) as u16,
                (v % 65536) as u16,
            ],
        )
    } else {
        None
    }
}

/// The fields of `x` between colons; an empty text has no field.
pub open spec fn colon_fields(x: Seq<char>) -> Seq<Seq<char>> {
    if x.len() == 0 {
        Seq::empty()
    } else {
        split_on(x, ':')
    }
}

/// The groups that the characters `s[lo..hi]` stand for, as `groups_value` says.
pub fn parse_groups(s: &Vec<char>, lo: usize, hi: usize, v4_last: bool) -> (r: Option<Vec<u16>>)
    requires
        lo <= hi <= s@.len(),
    ensures
        match r {
            Some(v) => groups_value(colon_fields(s@.subrange(lo as int, hi as int)), v4_last) == Some(v@),
            None => groups_value(colon_fields(s@.subrange(lo as int, hi as int)), v4_last) is None,
        },
{
    let ghost t = s@.subrange(lo as int, hi as int);
    if lo == hi {
        let v: Vec<u16> = Vec::new();
        assert(colon_fields(t) =~= Seq::<Seq<char>>::empty());
        assert(v@ =~= Seq::new(0, |k: int| hex_value(colon_fields(t)[k]) as u16));
        return Some(v);
    }
    let mut vals: Vec<u16> = Vec::new();
    let mut count: usize = 0;
    let mut bad = false;
    let mut start: usize = lo;
    let mut j: usize = lo;
    assert(t.take(0) =~= Seq::<char>::empty());
    assert(s@.subrange(lo as int, lo as int) =~= Seq::<char>::empty());
    while j < hi
        invariant
            lo <= start <= j <= hi <= s@.len(),
            t == s@.subrange(lo as int, hi as int),
            count <= j - lo,
            split_on(t.take(j - lo), ':').len() == count + 1,
            split_on(t.take(j - lo), ':').last() == s@.subrange(start as int, j as int),
            !bad <==> (forall|k: int| 0 <= k < count ==> valid_group(#[trigger] split_on(t.take(j - lo), ':')[k])),
            vals@.len() == count,
            forall|k: int| 0 <= k < count && valid_group(split_on(t.take(j - lo), ':')[k])
                ==> vals@[k] == hex_value(#[trigger] split_on(t.take(j - lo), ':')[k]) as u16,
        decreases hi - j,
    {
        let ghost f_old = split_on(t.take(j - lo), ':');
        let ghost old_start = start;
        let ghost old_count = count;
        proof {
            lemma_split_on_step(t, ':', j - lo);
            assert(t[j - lo] == s@[j as int]);
        }
        if s[j] == ':' {
            match parse_group(s, start, j) {
                Some(g) => {
                    vals.push(g);
                },
                None => {
                    bad = true;
                    vals.push(0);
                },
            }
            count = count + 1;
            start = j + 1;
            assert(s@.subrange(start as int, (j + 1) as int) =~= Seq::<char>::empty());
        } else {
            assert(s@.subrange(start as int, (j + 1) as int) =~= s@.subrange(start as int, j as int).push(s@[j as int]));
        }
        j = j + 1;
        proof {
            let f_new = split_on(t.take(j - lo), ':');
            assert forall|k: int| 0 <= k < count implies #[trigger] f_new[k] == (if k < old_count {
                f_old[k]
            } else {
                s@.subrange(old_start as int, (j - 1) as int)
            }) by {}
            if bad {
                if forall|k: int| 0 <= k < count ==> valid_group(#[trigger] f_new[k]) {
                    if count == old_count {
                        assert forall|k: int| 0 <= k < old_count implies valid_group(#[trigger] f_old[k]) by {
                            assert(f_new[k] == f_old[k]);
                        }
                    } else {
                        assert forall|k: int| 0 <= k < old_count implies valid_group(#[trigger] f_old[k]) by {
                            assert(f_new[k] == f_old[k]);
                        }
                        assert(f_new[old_count as int] == s@.subrange(old_start as int, (j - 1) as int));
                    }
                }
            } else {
                assert forall|k: int| 0 <= k < count implies valid_group(#[trigger] f_new[k]) by {
                    if k < old_count {
                        assert(f_new[k] == f_old[k]);
                    }
                }
            }
        }
    }
    assert(t.take(hi - lo) =~= t);
    let ghost f = split_on(t, ':');
    assert(colon_fields(t) == f);
    if bad {
        return None;
    }
    match parse_group(s, start, hi) {
        Some(g) => {
            vals.push(g);
            assert(vals@ =~= Seq::new(f.len(), |k: int| hex_value(f[k]) as u16));
            return Some(vals);
        },
        None => {},
    }
    if !v4_last {
        return None;
    }
    match parse_ipv4_range(s, start, hi) {
        Some(v) => {
            assert(vals@ =~= Seq::new((f.len() - 1) as nat, |k: int| hex_value(f[k]) as u16));
            vals.push((v / 65536) as u16);
            vals.push((v % 65536) as u16);
            Some(vals)
        },
        None => None,
    }
}


/// The position of the first `::` in `s`, or -1 where there is none.
pub open spec fn first_double_colon(s: Seq<char>) -> int
    decreases s.len(),
{
    if s.len() < 2 {
        -1
    } else {
        let r = first_double_colon(s.drop_last());
        if r >= 0 {
            r
        } else if s[s.len() - 2] == ':' && s.last() == ':' {
            s.len() - 2
        } else {
            -1
        }
    }
}

proof fn lemma_first_double_colon_extends(s: Seq<char>, j: int)
    requires
        0 <= j <= s.len(),
        first_double_colon(s.take(j)) >= 0,
    ensures
        first_double_colon(s) == first_double_colon(s.take(j)),
    decreases s.len() - j,
{
    if j < s.len() {
        assert(s.take(j + 1).drop_last() =~= s.take(j));
        lemma_first_double_colon_extends(s, j + 1);
    } else {
        assert(s.take(j) =~= s);
    }
}

/// The IPv6 address that the text `s` denotes, as its 128 bits: either
/// eight groups separated by colons, the last two of which may be written
/// as an IPv4 literal, or groups before and after a single `::` that
/// stands for as many zero groups as make eight, at least one.
pub open spec fn ipv6_text(s: Seq<char>) -> Option<u128> {
    let p = first_double_colon(s);
    if p < 0 {
        match groups_value(colon_fields(s), true) {
            Some(g) => if g.len() == 8 {
                Some(crate::net::segments_value(g) as u128)
            } else {
                None
            },
            None => None,
        }
    } else {
        match (
            groups_value(colon_fields(s.take(p)), false),
            groups_value(colon_fields(s.skip(p + 2)), true),
        ) {
            (Some(h), Some(t)) => if h.len() + t.len() <= 7 {
                Some(
                    crate::net::segments_value(
                        h + Seq::new((8 - h.len() - t.len()) as nat, |i: int| 0u16) + t,
                    ) as u128,
                )
            } else {
                None
            },
            _ => None,
        }
    }
}

/// The IPv4 address that `host` denotes in dotted-decimal form.
pub fn parse_ipv4(host: &str) -> (r: Option<u32>)
    ensures
        r == ipv4_text(host@),
{
    let s = chars_of(host);
    let r = parse_ipv4_range(&s, 0, s.len());
    assert(s@.subrange(0, s@.len() as int) =~= s@);
    r
}

/// The IPv6 address that `host` denotes.
pub fn parse_ipv6(host: &str) -> (r: Option<u128>)
    ensures
        r == ipv6_text(host@),
{
    let s = chars_of(host);
    let n = s.len();
    let mut found = false;
    let mut j: usize = 0;
    while j < n
        invariant_except_break
            !found,
            first_double_colon(s@.take(j as int)) == -1,
        invariant
            j <= n == s@.len(),
        ensures
            !found ==> first_double_colon(s@.take(j as int)) == -1,
            found ==> j >= 2 && first_double_colon(s@.take(j as int)) == j - 2,
            found || j == n,
        decreases n - j,
    {
        assert(s@.take(j + 1).drop_last() =~= s@.take(j as int));
        assert(s@.take(j + 1).len() == j + 1);
        assert(s@.take(j + 1).last() == s@[j as int]);
        if j >= 1 {
            assert(s@.take(j + 1)[j - 1] == s@[j - 1]);
        }
        if j >= 1 && s[j - 1] == ':' && s[j] == ':' {
            j = j + 1;
            found = true;
            break;
        }
        j = j + 1;
    }
    if !found {
        assert(s@.take(n as int) =~= s@);
        assert(s@.subrange(0, n as int) =~= s@);
        match parse_groups(&s, 0, n, true) {
            Some(g) => {
                if g.len() == 8 {
                    let bits = crate::net::segments_bits(g.as_slice());
                    return Some(bits);
                }
                return None;
            },
            None => {
                return None;
            },
        }
    }
    proof {
        lemma_first_double_colon_extends(s@, j as int);
    }
    let p = j - 2;
    assert(s@.subrange(0, p as int) =~= s@.take(p as int));
    assert(s@.subrange((p + 2) as int, n as int) =~= s@.skip(p + 2));
    let head = parse_groups(&s, 0, p, false);
    let tail = parse_groups(&s, p + 2, n, true);
    match (head, tail) {
        (Some(h), Some(t)) => {
            if h.len() > 7 || t.len() > 7 - h.len() {
                return None;
            }
            let zeros = 8 - h.len() - t.len();
            let mut all: Vec<u16> = Vec::new();
            let mut k: usize = 0;
            while k < h.len()
                invariant
                    k <= h@.len(),
                    all@ == h@.take(k as int),
                decreases h@.len() - k,
            {
                all.push(h[k]);
                k = k + 1;
                assert(all@ =~= h@.take(k as int));
            }
            let mut z: usize = 0;
            while z < zeros
                invariant
                    z <= zeros,
                    h@.len() == k,
                    all@ == h@ + Seq::new(z as nat, |i: int| 0u16),
                decreases zeros - z,
            {
                all.push(0);
                z = z + 1;
                assert(all@ =~= h@ + Seq::new(z as nat, |i: int| 0u16));
            }
            let mut m: usize = 0;
            while m < t.len()
                invariant
                    m <= t@.len(),
                    all@ == h@ + Seq::new(zeros as nat, |i: int| 0u16) + t@.take(m as int),
                decreases t@.len() - m,
            {
                all.push(t[m]);
                m = m + 1;
                assert(all@ =~= h@ + Seq::new(zeros as nat, |i: int| 0u16) + t@.take(m as int));
            }
            assert(t@.take(t@.len() as int) =~= t@);
            let bits = crate::net::segments_bits(all.as_slice());
            Some(bits)
        },
        _ => None,
    }
}


/// Splitting a text made of `a`, a separator and `b` gives the fields of
/// `a` followed by those of `b`.
pub proof fn lemma_split_on_concat(a: Seq<char>, b: Seq<char>, sep: char)
    ensures
        split_on(a.push(sep) + b, sep) == split_on(a, sep) + split_on(b, sep),
    decreases b.len(),
{
    lemma_split_on_len(a, sep);
    if b.len() == 0 {
        assert(a.push(sep) + b =~= a.push(sep));
        assert(a.push(sep).drop_last() =~= a);
        assert(split_on(a, sep).push(Seq::<char>::empty()) =~= split_on(a, sep) + seq![Seq::<char>::empty()]);
    } else {
        let b2 = b.drop_last();
        lemma_split_on_concat(a, b2, sep);
        lemma_split_on_len(b2, sep);
        assert((a.push(sep) + b).drop_last() =~= a.push(sep) + b2);
        let fa = split_on(a, sep);
        let fb = split_on(b2, sep);
        if b.last() == sep {
            assert((fa + fb).push(Seq::<char>::empty()) =~= fa + fb.push(Seq::<char>::empty()));
        } else {
            assert((fa + fb).update((fa + fb).len() - 1, (fa + fb).last().push(b.last())) =~= fa + fb.update(
                fb.len() - 1,
                fb.last().push(b.last()),
            ));
        }
    }
}

/// A text without the separator is a single field.
pub proof fn lemma_split_on_no_sep(a: Seq<char>, sep: char)
    requires
        forall|i: int| 0 <= i < a.len() ==> a[i] != sep,
    ensures
        split_on(a, sep) == seq![a],
    decreases a.len(),
{
    if a.len() > 0 {
        let b = a.drop_last();
        lemma_split_on_no_sep(b, sep);
        assert(b.push(a.last()) =~= a);
        assert(seq![b].update(0, b.push(a.last())) =~= seq![a]);
    } else {
        assert(a =~= Seq::<char>::empty());
    }
}

/// The fields of `s` where `p` is the position of its first separator, or
/// its length where it has none.
pub proof fn lemma_split_on_first(s: Seq<char>, sep: char, p: int)
    requires
        0 <= p <= s.len(),
        forall|i: int| 0 <= i < p ==> s[i] != sep,
        p < s.len() ==> s[p] == sep,
    ensures
        split_on(s, sep)[0] == s.take(p),
        p < s.len() ==> split_on(s, sep) == seq![s.take(p)] + split_on(s.skip(p + 1), sep),
        p == s.len() ==> split_on(s, sep) == seq![s],
{
    lemma_split_on_no_sep(s.take(p), sep);
    if p < s.len() {
        assert(s.take(p).push(sep) + s.skip(p + 1) =~= s);
        lemma_split_on_concat(s.take(p), s.skip(p + 1), sep);
    } else {
        assert(s.take(p) =~= s);
    }
}

/// The last field of `s` where `q` is the position of its last separator.
pub proof fn lemma_split_on_last(s: Seq<char>, sep: char, q: int)
    requires
        0 <= q < s.len(),
        s[q] == sep,
        forall|i: int| q < i < s.len() ==> s[i] != sep,
    ensures
        split_on(s, sep).last() == s.skip(q + 1),
{
    assert(s.take(q).push(sep) + s.skip(q + 1) =~= s);
    lemma_split_on_concat(s.take(q), s.skip(q + 1), sep);
    lemma_split_on_no_sep(s.skip(q + 1), sep);
}

/// The position of the first `c` in `s[lo..hi]`, or `hi` where there is none.
pub fn find_char(s: &Vec<char>, lo: usize, hi: usize, c: char) -> (r: usize)
    requires
        lo <= hi <= s@.len(),
    ensures
        lo <= r <= hi,
        forall|i: int| lo <= i < r ==> s@[i] != c,
        r < hi ==> s@[r as int] == c,
{
    let mut i = lo;
    while i < hi
        invariant
            lo <= i <= hi <= s@.len(),
            forall|j: int| lo <= j < i ==> s@[j] != c,
        decreases hi - i,
    {
        if s[i] == c {
            return i;
        }
        i = i + 1;
    }
    hi
}

/// Whether `a` and `b` hold the same characters.
pub fn str_eq(a: &str, b: &str) -> (r: bool)
    ensures
        r == (a@ == b@),
{
    let x = chars_of(a);
    let y = chars_of(b);
    if x.len() != y.len() {
        return false;
    }
    let mut i: usize = 0;
    while i < x.len()
        invariant
            x@ == a@,
            y@ == b@,
            x@.len() == y@.len(),
            i <= x@.len(),
            forall|j: int| 0 <= j < i ==> x@[j] == y@[j],
        decreases x@.len() - i,
    {
        if x[i] != y[i] {
            assert(a@[i as int] != b@[i as int]);
            return false;
        }
        i = i + 1;
    }
    assert(x@ =~= y@);
    true
}

/// Whether `s` begins with `prefix`.
pub open spec fn starts_with(s: Seq<char>, prefix: Seq<char>) -> bool {
    prefix.len() <= s.len() && s.take(prefix.len() as int) == prefix
}

/// Whether the characters `s` begin with those of `prefix`.
pub fn chars_start_with(s: &Vec<char>, prefix: &Vec<char>) -> (r: bool)
    ensures
        r == starts_with(s@, prefix@),
{
    if prefix.len() > s.len() {
        return false;
    }
    let mut i: usize = 0;
    while i < prefix.len()
        invariant
            prefix@.len() <= s@.len(),
            i <= prefix@.len(),
            forall|j: int| 0 <= j < i ==> s@[j] == prefix@[j],
        decreases prefix@.len() - i,
    {
        if s[i] != prefix[i] {
            assert(s@.take(prefix@.len() as int)[i as int] != prefix@[i as int]);
            return false;
        }
        i = i + 1;
    }
    assert(s@.take(prefix@.len() as int) =~= prefix@);
    true
}


/// The decimal digit with value `d`.
pub open spec fn digit_char(d: int) -> char {
    ('0' as int + d) as char
}

/// The decimal text of `n`, without leading zeros.
pub open spec fn dec_text(n: nat) -> Seq<char>
    decreases n,
{
    if n < 10 {
        seq![digit_char(n as int)]
    } else {
        dec_text(n / 10).push(digit_char((n % 10) as int))
    }
}

/// The dotted-decimal text of four octets.
pub open spec fn dotted_quad(a: u8, b: u8, c: u8, d: u8) -> Seq<char> {
    ((dec_text(a as nat).push('.') + dec_text(b as nat)).push('.') + dec_text(c as nat)).push('.')
        + dec_text(d as nat)
}

proof fn lemma_dec_text(n: nat)
    ensures
        1 <= dec_text(n).len(),
        n < 10 ==> dec_text(n).len() == 1,
        n < 100 ==> dec_text(n).len() <= 2,
        n < 1000 ==> dec_text(n).len() <= 3,
        forall|i: int| 0 <= i < dec_text(n).len() ==> is_dec_digit(#[trigger] dec_text(n)[i]),
        n >= 1 ==> dec_text(n)[0] != '0',
        dec_value(dec_text(n)) == n,
    decreases n,
{
    if n < 10 {
        assert(digit_char(n as int) as int == '0' as int + n);
        assert(seq![digit_char(n as int)] =~= Seq::<char>::empty().push(digit_char(n as int)));
        lemma_dec_value_push(Seq::<char>::empty(), digit_char(n as int));
        assert(dec_value(Seq::<char>::empty()) == 0);
    } else {
        let t = dec_text(n / 10);
        lemma_dec_text(n / 10);
        let c = digit_char((n % 10) as int);
        assert(c as int == '0' as int + n % 10);
        lemma_dec_value_push(t, c);
        assert((n / 10) * 10 + n % 10 == n);
        let u = t.push(c);
        assert forall|i: int| 0 <= i < u.len() implies is_dec_digit(#[trigger] u[i]) by {
            if i < t.len() {
                assert(u[i] == t[i]);
            }
        }
        assert(u[0] == t[0]);
    }
}

/// The dotted-decimal text of four octets denotes the IPv4 address with
/// those octets.
pub proof fn law_ipv4_dotted_quad(a: u8, b: u8, c: u8, d: u8)
    ensures
        ipv4_text(dotted_quad(a, b, c, d)) == Some(
            crate::net::octets_value(a as int, b as int, c as int, d as int) as u32,
        ),
{
    let ta = dec_text(a as nat);
    let tb = dec_text(b as nat);
    let tc = dec_text(c as nat);
    let td = dec_text(d as nat);
    lemma_dec_text(a as nat);
    lemma_dec_text(b as nat);
    lemma_dec_text(c as nat);
    lemma_dec_text(d as nat);
    assert forall|i: int| 0 <= i < ta.len() implies ta[i] != '.' by { assert(is_dec_digit(ta[i])); }
    assert forall|i: int| 0 <= i < tb.len() implies tb[i] != '.' by { assert(is_dec_digit(tb[i])); }
    assert forall|i: int| 0 <= i < tc.len() implies tc[i] != '.' by { assert(is_dec_digit(tc[i])); }
    assert forall|i: int| 0 <= i < td.len() implies td[i] != '.' by { assert(is_dec_digit(td[i])); }
    lemma_split_on_no_sep(ta, '.');
    lemma_split_on_no_sep(tb, '.');
    lemma_split_on_no_sep(tc, '.');
    lemma_split_on_no_sep(td, '.');
    let ab = ta.push('.') + tb;
    let abc = ab.push('.') + tc;
    lemma_split_on_concat(ta, tb, '.');
    lemma_split_on_concat(ab, tc, '.');
    lemma_split_on_concat(abc, td, '.');
    let f = split_on(dotted_quad(a, b, c, d), '.');
    assert(f =~= seq![ta, tb, tc, td]);
    assert(valid_octet(f[0]) && valid_octet(f[1]) && valid_octet(f[2]) && valid_octet(f[3]));
}


/// The lowercase hexadecimal digit with value `d`.
pub open spec fn hex_digit_char(d: int) -> char {
    if d < 10 {
        ('0' as int + d) as char
    } else {
        ('a' as int + d - 10) as char
    }
}

/// The lowercase hexadecimal text of `n`, without leading zeros.
pub open spec fn hex_text(n: nat) -> Seq<char>
    decreases n,
{
    if n < 16 {
        seq![hex_digit_char(n as int)]
    } else {
        hex_text(n / 16).push(hex_digit_char((n % 16) as int))
    }
}

/// The groups `segs` in hexadecimal, separated by colons.
pub open spec fn colon_joined(segs: Seq<u16>) -> Seq<char>
    decreases segs.len(),
{
    if segs.len() == 0 {
        Seq::empty()
    } else if segs.len() == 1 {
        hex_text(segs[0] as nat)
    } else {
        colon_joined(segs.drop_last()).push(':') + hex_text(segs.last() as nat)
    }
}

proof fn lemma_hex_text(n: nat)
    ensures
        1 <= hex_text(n).len(),
        n < 16 ==> hex_text(n).len() == 1,
        n < 256 ==> hex_text(n).len() <= 2,
        n < 4096 ==> hex_text(n).len() <= 3,
        n < 65536 ==> hex_text(n).len() <= 4,
        forall|i: int| 0 <= i < hex_text(n).len() ==> is_hex_digit(#[trigger] hex_text(n)[i]),
        hex_value(hex_text(n)) == n,
    decreases n,
{
    if n < 16 {
        let c = hex_digit_char(n as int);
        assert(seq![c] =~= Seq::<char>::empty().push(c));
        lemma_hex_value_push(Seq::<char>::empty(), c);
        assert(hex_value(Seq::<char>::empty()) == 0);
        if n < 10 {
            assert(c as int == '0' as int + n);
        } else {
            assert(c as int == 'a' as int + n - 10);
        }
    } else {
        let t = hex_text(n / 16);
        lemma_hex_text(n / 16);
        let c = hex_digit_char((n % 16) as int);
        if n % 16 < 10 {
            assert(c as int == '0' as int + n % 16);
        } else {
            assert(c as int == 'a' as int + n % 16 - 10);
        }
        lemma_hex_value_push(t, c);
        assert((n / 16) * 16 + n % 16 == n);
        let u = t.push(c);
        assert forall|i: int| 0 <= i < u.len() implies is_hex_digit(#[trigger] u[i]) by {
            if i < t.len() {
                assert(u[i] == t[i]);
            }
        }
    }
}

/// No two colons stand next to each other in `s`.
pub open spec fn no_double_colon(s: Seq<char>) -> bool {
    forall|i: int| 0 <= i < s.len() - 1 ==> !(#[trigger] s[i] == ':' && s[i + 1] == ':')
}

proof fn lemma_no_double_colon(s: Seq<char>)
    requires
        no_double_colon(s),
    ensures
        first_double_colon(s) == -1,
    decreases s.len(),
{
    if s.len() >= 2 {
        let t = s.drop_last();
        assert(no_double_colon(t)) by {
            assert forall|i: int| 0 <= i < t.len() - 1 implies !(#[trigger] t[i] == ':' && t[i + 1] == ':') by {
                assert(t[i] == s[i] && t[i + 1] == s[i + 1]);
            }
        }
        lemma_no_double_colon(t);
        let k = s.len() - 2;
        assert(!(s[k] == ':' && s[k + 1] == ':'));
    }
}

proof fn lemma_colon_joined(segs: Seq<u16>)
    requires
        segs.len() >= 1,
    ensures
        colon_joined(segs).len() >= 1,
        colon_joined(segs).last() != ':',
        no_double_colon(colon_joined(segs)),
        split_on(colon_joined(segs), ':') == Seq::new(segs.len(), |k: int| hex_text(segs[k] as nat)),
    decreases segs.len(),
{
    let h = hex_text(segs.last() as nat);
    lemma_hex_text(segs.last() as nat);
    assert forall|i: int| 0 <= i < h.len() implies h[i] != ':' by {
        assert(is_hex_digit(h[i]));
    }
    lemma_split_on_no_sep(h, ':');
    if segs.len() == 1 {
        assert(colon_joined(segs) == h);
        assert(is_hex_digit(h[h.len() - 1]));
        assert(Seq::new(segs.len(), |k: int| hex_text(segs[k] as nat)) =~= seq![h]);
    } else {
        let init = segs.drop_last();
        lemma_colon_joined(init);
        let a = colon_joined(init);
        let s = a.push(':') + h;
        assert(colon_joined(segs) == s);
        assert(s.last() == h.last());
        assert(is_hex_digit(h[h.len() - 1]));
        assert forall|i: int| 0 <= i < s.len() - 1 implies !(#[trigger] s[i] == ':' && s[i + 1] == ':') by {
            if i < a.len() - 1 {
                assert(s[i] == a[i] && s[i + 1] == a[i + 1]);
            } else if i == a.len() - 1 {
                assert(s[i] == a.last());
            } else if i == a.len() {
                assert(s[i + 1] == h[0]);
            } else {
                assert(s[i] == h[i - a.len() - 1]);
            }
        }
        lemma_split_on_concat(a, h, ':');
        assert(Seq::new(segs.len(), |k: int| hex_text(segs[k] as nat)) =~= Seq::new(
            init.len(),
            |k: int| hex_text(init[k] as nat),
        ) + seq![h]);
    }
}

/// Eight groups written in full, in hexadecimal and separated by colons,
/// denote the IPv6 address with those groups.
pub proof fn law_ipv6_full_form(segs: Seq<u16>)
    requires
        segs.len() == 8,
    ensures
        ipv6_text(colon_joined(segs)) == Some(crate::net::segments_value(segs) as u128),
{
    let s = colon_joined(segs);
    lemma_colon_joined(segs);
    lemma_no_double_colon(s);
    let f = split_on(s, ':');
    assert(colon_fields(s) == f);
    assert forall|k: int| 0 <= k < f.len() implies valid_group(#[trigger] f[k]) by {
        lemma_hex_text(segs[k] as nat);
        assert(f[k] == hex_text(segs[k] as nat));
    }
    assert(Seq::new(f.len(), |k: int| hex_value(f[k]) as u16) =~= segs) by {
        assert forall|k: int| 0 <= k < f.len() implies hex_value(#[trigger] f[k]) as u16 == segs[k] by {
            lemma_hex_text(segs[k] as nat);
            assert(f[k] == hex_text(segs[k] as nat));
        }
    }
}

/// One to four hexadecimal digits, leading zeros allowed.
pub open spec fn hex_digits_1_to_4(t: Seq<char>) -> bool {
    &&& 1 <= t.len() <= 4
    &&& forall|i: int| 0 <= i < t.len() ==> is_hex_digit(#[trigger] t[i])
}

/// The fields `fs` separated by colons.
pub open spec fn fields_joined(fs: Seq<Seq<char>>) -> Seq<char>
    decreases fs.len(),
{
    if fs.len() == 0 {
        Seq::empty()
    } else if fs.len() == 1 {
        fs[0]
    } else {
        fields_joined(fs.drop_last()).push(':') + fs.last()
    }
}

proof fn lemma_fields_joined(fs: Seq<Seq<char>>)
    requires
        fs.len() >= 1,
        forall|k: int| 0 <= k < fs.len() ==> hex_digits_1_to_4(#[trigger] fs[k]),
    ensures
        fields_joined(fs).len() >= 1,
        fields_joined(fs).last() != ':',
        no_double_colon(fields_joined(fs)),
        split_on(fields_joined(fs), ':') == fs,
    decreases fs.len(),
{
    let h = fs.last();
    assert(hex_digits_1_to_4(fs[fs.len() - 1]));
    assert forall|i: int| 0 <= i < h.len() implies h[i] != ':' by {
        assert(is_hex_digit(h[i]));
    }
    lemma_split_on_no_sep(h, ':');
    assert(is_hex_digit(h[h.len() - 1]));
    if fs.len() == 1 {
        assert(fields_joined(fs) == h);
        assert(fs =~= seq![h]);
    } else {
        let init = fs.drop_last();
        assert forall|k: int| 0 <= k < init.len() implies hex_digits_1_to_4(#[trigger] init[k]) by {
            assert(init[k] == fs[k]);
        }
        lemma_fields_joined(init);
        let a = fields_joined(init);
        let t = a.push(':') + h;
        assert(fields_joined(fs) == t);
        assert(t.last() == h.last());
        assert forall|i: int| 0 <= i < t.len() - 1 implies !(#[trigger] t[i] == ':' && t[i + 1] == ':') by {
            if i < a.len() - 1 {
                assert(t[i] == a[i] && t[i + 1] == a[i + 1]);
            } else if i == a.len() - 1 {
                assert(t[i] == a.last());
            } else if i == a.len() {
                assert(t[i + 1] == h[0]);
                assert(is_hex_digit(h[0]));
            } else {
                assert(t[i] == h[i - a.len() - 1]);
                assert(is_hex_digit(h[i - a.len() - 1]));
            }
        }
        lemma_split_on_concat(a, h, ':');
        assert(init + seq![h] =~= fs);
    }
}

/// Eight fields of one to four hexadecimal digits each, leading zeros
/// allowed, separated by colons, denote the IPv6 address whose groups are
/// their values.
pub proof fn law_ipv6_groups_with_leading_zeros(fs: Seq<Seq<char>>)
    requires
        fs.len() == 8,
        forall|k: int| 0 <= k < 8 ==> hex_digits_1_to_4(#[trigger] fs[k]),
    ensures
        ipv6_text(fields_joined(fs)) == Some(
            crate::net::segments_value(Seq::new(8, |k: int| hex_value(fs[k]) as u16)) as u128,
        ),
{
    let s = fields_joined(fs);
    lemma_fields_joined(fs);
    lemma_no_double_colon(s);
    assert(colon_fields(s) == fs);
    assert forall|k: int| 0 <= k < fs.len() implies valid_group(#[trigger] fs[k]) by {
        assert(hex_digits_1_to_4(fs[k]));
    }
    assert(Seq::new(fs.len(), |k: int| hex_value(fs[k]) as u16) =~= Seq::new(8, |k: int| hex_value(fs[k]) as u16));
}

} // verus!
