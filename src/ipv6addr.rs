//! IPv6 addresses.
use vstd::prelude::*;
use crate::addr_range::{lemma_wrap, AddrText, Family, Rangeable};
use crate::ipv4addr::{dotted_quad, ipv4_text, parse_dotted_quad, push_dotted_quad};
use crate::text::{lemma_hex_text, lemma_split_none};
use crate::text::{
    chars_of, hex_digit_exec, hex_digit_value, hex_padded, hex_text, hex_value, is_hex_digit,
    is_hex_numeral, is_numeral, is_numeral_exec, lemma_hex_padded, lemma_hex_padded_split,
    lemma_next_digit, lemma_split_join, numeral_below, parse_decimal, push_char, push_hex,
    push_hex_padded, split, split_bounds,
};

verus! {

pub open spec fn pow_group(k: nat) -> nat
    decreases k,
{
    if k == 0 {
        1
    } else {
        0x1_0000 * pow_group((k - 1) as nat)
    }
}

/// One group of colon-separated text: one to four hexadecimal digits.
pub open spec fn is_group_text(q: Seq<char>) -> bool {
    is_hex_numeral(q) && q.len() <= 4
}

/// The 16-bit groups that colon-separated text denotes. Each piece is one
/// group; where `v4` allows it, the last piece may be a dotted quad, which
/// stands for two groups. Empty text denotes no group.
pub open spec fn groups_of(t: Seq<char>, v4: bool) -> Option<Seq<u16>> {
    if t.len() == 0 {
        Some(Seq::empty())
    } else {
        let p = split(t, ':');
        let n = p.len();
        if v4 && dotted_quad(p[n - 1]) is Some && forall|k: int|
            0 <= k < n - 1 ==> is_group_text(#[trigger] p[k]) {
            let q = dotted_quad(p[n - 1])->0;
            Some(
                Seq::new((n - 1) as nat, |k: int| hex_value(p[k]) as u16).push(
                    (q / 0x1_0000) as u16,
                ).push((q % 0x1_0000) as u16),
            )
        } else if forall|k: int| 0 <= k < n ==> is_group_text(#[trigger] p[k]) {
            Some(Seq::new(n as nat, |k: int| hex_value(p[k]) as u16))
        } else {
            None
        }
    }
}

/// The magnitude of a sequence of 16-bit groups, most significant first.
pub open spec fn groups_value(g: Seq<u16>) -> nat
    decreases g.len(),
{
    if g.len() == 0 {
        0
    } else {
        groups_value(g.drop_last()) * 0x1_0000 + g.last() as nat
    }
}

/// Where the first `::` in `s` begins.
pub open spec fn find_double_colon(s: Seq<char>) -> Option<nat>
    decreases s.len(),
{
    if s.len() < 2 {
        None
    } else if s[0] == ':' && s[1] == ':' {
        Some(0)
    } else {
        match find_double_colon(s.drop_first()) {
            Some(i) => Some(i + 1),
            None => None,
        }
    }
}

/// The magnitude of colon-hex text: eight groups, or fewer with one `::`
/// standing for at least one group of zeros.
pub open spec fn colon_hex(s: Seq<char>) -> Option<nat> {
    match find_double_colon(s) {
        Some(i) => match (
            groups_of(s.subrange(0, i as int), false),
            groups_of(s.subrange(i + 2 as int, s.len() as int), true),
        ) {
            (Some(h), Some(t)) => if h.len() + t.len() <= 7 {
                Some(groups_value(h + Seq::new((8 - h.len() - t.len()) as nat, |k: int| 0u16) + t))
            } else {
                None
            },
            _ => None,
        },
        None => match groups_of(s, true) {
            Some(g) => if g.len() == 8 {
                Some(groups_value(g))
            } else {
                None
            },
            None => None,
        },
    }
}

/// The magnitude that `s` denotes as an IPv6 address: a decimal numeral
/// below `2^128`, or colon-hex text.
pub open spec fn ipv6_of_text(s: Seq<char>) -> Option<nat> {
    if is_numeral(s) {
        numeral_below(s, u128::MAX as nat + 1)
    } else {
        colon_hex(s)
    }
}

/// The eight groups of the address with magnitude `v`.
pub open spec fn ipv6_groups(v: nat) -> Seq<u16> {
    Seq::new(8, |k: int| ((v / pow_group((7 - k) as nat)) % 0x1_0000) as u16)
}

/// Groups in lowercase hexadecimal without leading zeros, joined by colons.
pub open spec fn join_groups(g: Seq<u16>) -> Seq<char>
    decreases g.len(),
{
    if g.len() == 0 {
        Seq::empty()
    } else if g.len() == 1 {
        hex_text(g[0] as nat)
    } else {
        join_groups(g.drop_last()) + seq![':'] + hex_text(g.last() as nat)
    }
}

/// Groups as four lowercase hexadecimal digits each, joined by colons.
pub open spec fn join_full_groups(g: Seq<u16>) -> Seq<char>
    decreases g.len(),
{
    if g.len() == 0 {
        Seq::empty()
    } else if g.len() == 1 {
        hex_padded(g[0] as nat, 4)
    } else {
        join_full_groups(g.drop_last()) + seq![':'] + hex_padded(g.last() as nat, 4)
    }
}

/// The state of a left-to-right scan of the first `i` groups for runs of
/// zeros: the start and length of the current run, and of the first longest
/// run seen.
pub open spec fn zero_scan(g: Seq<u16>, i: nat) -> (nat, nat, nat, nat)
    decreases i,
{
    if i == 0 {
        (0, 0, 0, 0)
    } else {
        let (cs, cl, bs, bl) = zero_scan(g, (i - 1) as nat);
        if g[i - 1] == 0 {
            let s = if cl == 0 {
                (i - 1) as nat
            } else {
                cs
            };
            if cl + 1 > bl {
                (s, cl + 1, s, cl + 1)
            } else {
                (s, cl + 1, bs, bl)
            }
        } else {
            (0, 0, bs, bl)
        }
    }
}

/// Whether the groups are those of an IPv4-mapped address `::ffff:a.b.c.d`.
pub open spec fn is_v4_mapped(g: Seq<u16>) -> bool {
    g[0] == 0 && g[1] == 0 && g[2] == 0 && g[3] == 0 && g[4] == 0 && g[5] == 0xffff
}

/// The standard text of the address with magnitude `v`: an IPv4-mapped
/// address as `::ffff:` and a dotted quad; otherwise groups without leading
/// zeros, where the first longest run of two or more zero groups is written
/// `::`.
pub open spec fn ipv6_text(v: nat) -> Seq<char> {
    let g = ipv6_groups(v);
    if is_v4_mapped(g) {
        seq![':', ':', 'f', 'f', 'f', 'f', ':'] + ipv4_text(v % 0x1_0000_0000)
    } else {
        let bs = zero_scan(g, 8).2;
        let bl = zero_scan(g, 8).3;
        if bl > 1 {
            join_groups(g.subrange(0, bs as int)) + seq![':', ':'] + join_groups(
                g.subrange(bs + bl as int, 8),
            )
        } else {
            join_groups(g)
        }
    }
}

/// The full text of the address with magnitude `v`: eight groups of four
/// lowercase hexadecimal digits joined by colons.
pub open spec fn ipv6_full_text(v: nat) -> Seq<char> {
    join_full_groups(ipv6_groups(v))
}

proof fn lemma_pow_group_values()
    ensures
        pow_group(0) == 1,
        pow_group(1) == 0x1_0000,
        pow_group(2) == 0x1_0000_0000,
        pow_group(3) == 0x1_0000_0000_0000,
        pow_group(4) == 0x1_0000_0000_0000_0000,
        pow_group(5) == 0x1_0000_0000_0000_0000_0000,
        pow_group(6) == 0x1_0000_0000_0000_0000_0000_0000,
        pow_group(7) == 0x1_0000_0000_0000_0000_0000_0000_0000,
        pow_group(8) == u128::MAX as nat + 1,
{
    reveal_with_fuel(pow_group, 9);
}

proof fn lemma_pow_group_positive(k: nat)
    ensures
        pow_group(k) > 0,
        pow_group(k + 1) == 0x1_0000 * pow_group(k),
    decreases k,
{
    if k > 0 {
        lemma_pow_group_positive((k - 1) as nat);
    }
}

proof fn lemma_groups_value_bound(g: Seq<u16>)
    ensures
        groups_value(g) < pow_group(g.len()),
    decreases g.len(),
{
    if g.len() > 0 {
        lemma_groups_value_bound(g.drop_last());
        let a = groups_value(g.drop_last());
        let p = pow_group(g.drop_last().len());
        let x = g.last();
        assert(a * 0x1_0000 + x < 0x1_0000 * p) by (nonlinear_arith)
            requires
                a < p,
                x < 0x1_0000,
        ;
    }
}

proof fn lemma_hex_value_bound(q: Seq<char>)
    requires
        forall|i: int| 0 <= i < q.len() ==> is_hex_digit(#[trigger] q[i]),
    ensures
        q.len() <= 4 ==> hex_value(q) < 0x1_0000,
        q.len() <= 3 ==> hex_value(q) < 0x1000,
        q.len() <= 2 ==> hex_value(q) < 0x100,
        q.len() <= 1 ==> hex_value(q) < 0x10,
    decreases q.len(),
{
    if q.len() > 0 {
        let d = q.drop_last();
        assert forall|i: int| 0 <= i < d.len() implies is_hex_digit(#[trigger] d[i]) by {
            assert(d[i] == q[i]);
        }
        lemma_hex_value_bound(d);
        assert(is_hex_digit(q.last()));
        assert(hex_digit_value(q.last()) < 16);
    }
}

pub proof fn lemma_find_double_colon(s: Seq<char>)
    ensures
        match find_double_colon(s) {
            Some(i) => i + 1 < s.len() && s[i as int] == ':' && s[i + 1 as int] == ':' && forall|j: int|
                0 <= j < i ==> !(#[trigger] s[j] == ':' && s[j + 1] == ':'),
            None => forall|j: int| 0 <= j < s.len() - 1 ==> !(#[trigger] s[j] == ':' && s[j + 1] == ':'),
        },
    decreases s.len(),
{
    if s.len() >= 2 {
        lemma_find_double_colon(s.drop_first());
        if !(s[0] == ':' && s[1] == ':') {
            assert forall|j: int| 1 <= j < s.len() implies s[j] == s.drop_first()[j - 1] by {}
        }
    }
}

/// Where the first `::` in `s[lo..hi]` begins, counted from `lo`.
fn find_double_colon_exec(s: &Vec<char>, lo: usize, hi: usize) -> (r: Option<usize>)
    requires
        lo <= hi <= s@.len(),
    ensures
        r == (match find_double_colon(s@.subrange(lo as int, hi as int)) {
            Some(i) => Some((lo + i) as usize),
            None => None::<usize>,
        }),
{
    let ghost t = s@.subrange(lo as int, hi as int);
    proof {
        lemma_find_double_colon(t);
    }
    let mut i: usize = lo;
    while hi - i > 1
        invariant
            lo <= i <= hi <= s@.len(),
            t == s@.subrange(lo as int, hi as int),
            forall|j: int| lo <= j < i && j + 1 < hi ==> !(#[trigger] s@[j] == ':' && s@[j + 1] == ':'),
            match find_double_colon(t) {
                Some(k) => k + 1 < t.len() && t[k as int] == ':' && t[k + 1 as int] == ':' && forall|j: int|
                    0 <= j < k ==> !(#[trigger] t[j] == ':' && t[j + 1] == ':'),
                None => forall|j: int|
                    0 <= j < t.len() - 1 ==> !(#[trigger] t[j] == ':' && t[j + 1] == ':'),
            },
        decreases hi - i,
    {
        if s[i] == ':' && s[i + 1] == ':' {
            proof {
                assert(t[i - lo] == ':' && t[i - lo + 1] == ':');
                if let Some(k) = find_double_colon(t) {
                    assert(t[k as int] == s@[lo + k]);
                    assert(t[k + 1 as int] == s@[lo + k + 1]);
                    assert(k == i - lo);
                }
            }
            return Some(i);
        }
        i += 1;
    }
    proof {
        if let Some(k) = find_double_colon(t) {
            assert(t[k as int] == s@[lo + k]);
            assert(t[k + 1 as int] == s@[lo + k + 1]);
        }
    }
    None
}

/// The value of `s[lo..hi]` as one group of one to four hexadecimal digits.
fn parse_group(s: &Vec<char>, lo: usize, hi: usize) -> (r: Option<u16>)
    requires
        lo <= hi <= s@.len(),
    ensures
        r == (if is_group_text(s@.subrange(lo as int, hi as int)) {
            Some(hex_value(s@.subrange(lo as int, hi as int)) as u16)
        } else {
            None::<u16>
        }),
        r is Some ==> hex_value(s@.subrange(lo as int, hi as int)) < 0x1_0000,
{
    let ghost t = s@.subrange(lo as int, hi as int);
    if lo == hi || hi - lo > 4 {
        return None;
    }
    let mut acc: u32 = 0;
    let mut i: usize = lo;
    while i < hi
        invariant
            lo <= i <= hi <= s@.len(),
            hi - lo <= 4,
            t == s@.subrange(lo as int, hi as int),
            forall|j: int| lo <= j < i ==> is_hex_digit(#[trigger] s@[j]),
            acc == hex_value(s@.subrange(lo as int, i as int)),
        decreases hi - i,
    {
        let ghost pre = s@.subrange(lo as int, i as int + 1);
        assert(pre.drop_last() =~= s@.subrange(lo as int, i as int));
        match hex_digit_exec(s[i]) {
            Some(d) => {
                proof {
                    assert forall|j: int| 0 <= j < pre.len() implies is_hex_digit(
                        #[trigger] pre[j],
                    ) by {
                        assert(pre[j] == s@[lo + j]);
                    }
                    lemma_hex_value_bound(pre);
                }
                acc = acc * 16 + d as u32;
            },
            None => {
                assert(!is_hex_digit(t[i - lo]));
                return None;
            },
        }
        i += 1;
    }
    proof {
        assert(t =~= s@.subrange(lo as int, i as int));
        assert forall|j: int| 0 <= j < t.len() implies is_hex_digit(#[trigger] t[j]) by {
            assert(t[j] == s@[lo + j]);
        }
        lemma_hex_value_bound(t);
    }
    Some(acc as u16)
}

/// The groups that `s[lo..hi]` denotes, as `groups_of` reads them.
fn parse_groups(s: &Vec<char>, lo: usize, hi: usize, v4: bool) -> (r: Option<Vec<u16>>)
    requires
        lo <= hi <= s@.len(),
    ensures
        match groups_of(s@.subrange(lo as int, hi as int), v4) {
            Some(g) => r is Some && r->0@ == g,
            None => r is None,
        },
{
    let ghost t = s@.subrange(lo as int, hi as int);
    let mut out: Vec<u16> = Vec::new();
    if lo == hi {
        assert(out@ =~= Seq::<u16>::empty());
        return Some(out);
    }
    let bounds = split_bounds(s, lo, hi, ':');
    let ghost p = split(t, ':');
    let n = bounds.len();
    proof {
        crate::text::lemma_split_len(t, ':');
    }
    let (la, lz) = bounds[n - 1];
    assert(bounds@[n - 1] == (la, lz));
    assert(s@.subrange(la as int, lz as int) == p[n - 1]);
    let quad = if v4 {
        parse_dotted_quad(s, la, lz)
    } else {
        None
    };
    let groups = if quad.is_some() {
        n - 1
    } else {
        n
    };
    let mut k: usize = 0;
    while k < groups
        invariant
            lo < hi <= s@.len(),
            t == s@.subrange(lo as int, hi as int),
            p == split(t, ':'),
            n == bounds@.len(),
            n == p.len(),
            n >= 1,
            groups <= n,
            k <= groups,
            quad is Some <==> (v4 && dotted_quad(p[n - 1]) is Some),
            quad is Some ==> quad->0 == dotted_quad(p[n - 1])->0,
            groups == (if quad is Some {
                n - 1
            } else {
                n as int
            }),
            forall|j: int|
                0 <= j < n ==> lo <= (#[trigger] bounds@[j]).0 <= bounds@[j].1 <= hi
                    && s@.subrange(bounds@[j].0 as int, bounds@[j].1 as int) == p[j],
            forall|j: int| 0 <= j < k ==> is_group_text(#[trigger] p[j]),
            out@ == Seq::new(k as nat, |j: int| hex_value(p[j]) as u16),
        decreases groups - k,
    {
        let (a, z) = bounds[k];
        assert(bounds@[k as int] == (a, z));
        assert(s@.subrange(a as int, z as int) == p[k as int]);
        match parse_group(s, a, z) {
            Some(x) => {
                out.push(x);
                assert(out@ =~= Seq::new(k as nat + 1, |j: int| hex_value(p[j]) as u16));
            },
            None => {
                proof {
                    if v4 && dotted_quad(p[n - 1]) is Some {
                        assert(k < n - 1);
                    }
                }
                return None;
            },
        }
        k += 1;
    }
    match quad {
        Some(q) => {
            out.push((q / 0x1_0000) as u16);
            out.push((q % 0x1_0000) as u16);
            assert(s@.subrange(la as int, lz as int) == p[n - 1]);
        },
        None => {
            proof {
                if v4 {
                    assert(s@.subrange(la as int, lz as int) == p[n - 1]);
                }
            }
        },
    }
    proof {
        assert(t.len() != 0);
    }
    Some(out)
}

/// The magnitude of eight groups.
fn combine_groups(g: &Vec<u16>) -> (r: u128)
    requires
        g@.len() == 8,
    ensures
        r == groups_value(g@),
{
    let mut value: u128 = 0;
    let mut k: usize = 0;
    proof {
        lemma_pow_group_values();
    }
    while k < 8
        invariant
            0 <= k <= 8,
            g@.len() == 8,
            value == groups_value(g@.subrange(0, k as int)),
            value < pow_group(k as nat),
            k < 8 ==> pow_group(k as nat) <= 0x1_0000_0000_0000_0000_0000_0000_0000,
            pow_group(8) == u128::MAX as nat + 1,
        decreases 8 - k,
    {
        let x = g[k];
        let ghost pre = g@.subrange(0, k as int + 1);
        assert(pre.drop_last() =~= g@.subrange(0, k as int));
        assert(value * 0x1_0000 + x < pow_group(k as nat) * 0x1_0000) by (nonlinear_arith)
            requires
                value < pow_group(k as nat),
                x < 0x1_0000,
        ;
        value = value * 0x1_0000 + x as u128;
        k += 1;
        proof {
            lemma_pow_group_values();
        }
    }
    assert(g@.subrange(0, 8) =~= g@);
    value
}

/// The value of colon-hex text in `s[lo..hi]`.
fn parse_colon_hex(s: &Vec<char>, lo: usize, hi: usize) -> (r: Option<u128>)
    requires
        lo <= hi <= s@.len(),
    ensures
        match colon_hex(s@.subrange(lo as int, hi as int)) {
            Some(v) => r == Some(v as u128) && v <= u128::MAX,
            None => r is None,
        },
{
    let ghost t = s@.subrange(lo as int, hi as int);
    match find_double_colon_exec(s, lo, hi) {
        Some(i) => {
            proof {
                lemma_find_double_colon(t);
                assert(s@.subrange(lo as int, i as int) =~= t.subrange(0, i - lo));
                assert(s@.subrange(i + 2, hi as int) =~= t.subrange(i - lo + 2, t.len() as int));
            }
            let head = parse_groups(s, lo, i, false);
            let tail = parse_groups(s, i + 2, hi, true);
            match (head, tail) {
                (Some(h), Some(tl)) => {
                    if h.len() > 7 || tl.len() > 7 - h.len() {
                        return None;
                    }
                    let zeros = 8 - h.len() - tl.len();
                    let mut all: Vec<u16> = Vec::new();
                    let mut j: usize = 0;
                    while j < h.len()
                        invariant
                            j <= h@.len(),
                            all@ == h@.subrange(0, j as int),
                        decreases h@.len() - j,
                    {
                        all.push(h[j]);
                        j += 1;
                        assert(all@ =~= h@.subrange(0, j as int));
                    }
                    let mut z: usize = 0;
                    while z < zeros
                        invariant
                            z <= zeros,
                            all@ == h@ + Seq::new(z as nat, |k: int| 0u16),
                        decreases zeros - z,
                    {
                        all.push(0);
                        z += 1;
                        assert(all@ =~= h@ + Seq::new(z as nat, |k: int| 0u16));
                    }
                    let mut j: usize = 0;
                    while j < tl.len()
                        invariant
                            j <= tl@.len(),
                            all@ == h@ + Seq::new(zeros as nat, |k: int| 0u16) + tl@.subrange(
                                0,
                                j as int,
                            ),
                        decreases tl@.len() - j,
                    {
                        all.push(tl[j]);
                        j += 1;
                        assert(all@ =~= h@ + Seq::new(zeros as nat, |k: int| 0u16) + tl@.subrange(
                            0,
                            j as int,
                        ));
                    }
                    assert(tl@.subrange(0, tl@.len() as int) =~= tl@);
                    Some(combine_groups(&all))
                },
                _ => None,
            }
        },
        None => match parse_groups(s, lo, hi, true) {
            Some(g) => if g.len() == 8 {
                Some(combine_groups(&g))
            } else {
                None
            },
            None => None,
        },
    }
}

/// An IPv6 address.
#[derive(Debug, PartialEq, Eq, PartialOrd, Ord, Clone, Copy)]
pub struct IPv6Addr {
    value: u128,
}

impl IPv6Addr {
    /// The address with the groups `n1` to `n8`, most significant first.
    pub fn new(n1: u16, n2: u16, n3: u16, n4: u16, n5: u16, n6: u16, n7: u16, n8: u16) -> (r:
        IPv6Addr)
        ensures
            r.value() == groups_value(seq![n1, n2, n3, n4, n5, n6, n7, n8]),
    {
        let mut g: Vec<u16> = Vec::new();
        g.push(n1);
        g.push(n2);
        g.push(n3);
        g.push(n4);
        g.push(n5);
        g.push(n6);
        g.push(n7);
        g.push(n8);
        assert(g@ =~= seq![n1, n2, n3, n4, n5, n6, n7, n8]);
        IPv6Addr { value: combine_groups(&g) }
    }

    pub fn from_u128(n: u128) -> (r: IPv6Addr)
        ensures
            r.value() == n,
    {
        IPv6Addr { value: n }
    }

    pub fn to_u128(&self) -> (r: u128)
        ensures
            r == self.value(),
    {
        self.value
    }

    /// Reads an IPv6 address: a decimal numeral below `2^128`, or colon-hex
    /// text.
    pub fn from_str(s: &str) -> (r: Result<IPv6Addr, ()>)
        ensures
            match ipv6_of_text(s@) {
                Some(v) => r is Ok && r->Ok_0.value() == v,
                None => r is Err,
            },
    {
        let chars = chars_of(s);
        proof {
            assert(chars@.subrange(0, chars@.len() as int) =~= s@);
        }
        match IPv6Addr::parse_chars(&chars, 0, chars.len()) {
            Some(a) => Ok(a),
            None => Err(()),
        }
    }

    /// The eight groups of the address.
    fn groups(&self) -> (r: Vec<u16>)
        ensures
            r@ == ipv6_groups(self.value()),
    {
        let mut g: Vec<u16> = Vec::new();
        let mut k: usize = 0;
        let mut p: u128 = 0x1_0000_0000_0000_0000_0000_0000_0000;
        proof {
            lemma_pow_group_values();
        }
        while k < 8
            invariant
                k <= 8,
                k < 8 ==> p == pow_group((7 - k) as nat),
                p > 0,
                g@ == ipv6_groups(self.value()).subrange(0, k as int),
            decreases 8 - k,
        {
            g.push(((self.value / p) % 0x1_0000) as u16);
            assert(g@ =~= ipv6_groups(self.value()).subrange(0, k as int + 1));
            if k < 7 {
                proof {
                    lemma_pow_group_positive((6 - k) as nat);
                }
                p = p / 0x1_0000;
            }
            k += 1;
            proof {
                lemma_pow_group_values();
            }
        }
        assert(g@ =~= ipv6_groups(self.value()));
        g
    }

    /// The standard text: see `ipv6_text`.
    pub fn to_string(&self) -> (r: String)
        ensures
            r@ == ipv6_text(self.value()),
    {
        let g = self.groups();
        let mut out = String::new();
        if g[0] == 0 && g[1] == 0 && g[2] == 0 && g[3] == 0 && g[4] == 0 && g[5] == 0xffff {
            push_char(&mut out, ':');
            push_char(&mut out, ':');
            push_char(&mut out, 'f');
            push_char(&mut out, 'f');
            push_char(&mut out, 'f');
            push_char(&mut out, 'f');
            push_char(&mut out, ':');
            push_dotted_quad(&mut out, (self.value % 0x1_0000_0000) as u32);
            assert(out@ =~= ipv6_text(self.value()));
            return out;
        }
        let mut cs: usize = 0;
        let mut cl: usize = 0;
        let mut bs: usize = 0;
        let mut bl: usize = 0;
        let mut i: usize = 0;
        while i < 8
            invariant
                i <= 8,
                g@.len() == 8,
                zero_scan(g@, i as nat) == (cs as nat, cl as nat, bs as nat, bl as nat),
                cs + cl <= i,
                bs + bl <= i,
            decreases 8 - i,
        {
            if g[i] == 0 {
                if cl == 0 {
                    cs = i;
                }
                cl = cl + 1;
                if cl > bl {
                    bs = cs;
                    bl = cl;
                }
            } else {
                cs = 0;
                cl = 0;
            }
            i += 1;
        }
        if bl > 1 {
            push_groups(&mut out, &g, 0, bs);
            push_char(&mut out, ':');
            push_char(&mut out, ':');
            push_groups(&mut out, &g, bs + bl, 8);
        } else {
            push_groups(&mut out, &g, 0, 8);
            assert(g@.subrange(0, 8) =~= g@);
        }
        assert(out@ =~= ipv6_text(self.value()));
        out
    }

    /// The full text: eight groups of four lowercase hexadecimal digits.
    pub fn to_full_string(&self) -> (r: String)
        ensures
            r@ == ipv6_full_text(self.value()),
    {
        let g = self.groups();
        let mut out = String::new();
        let mut i: usize = 0;
        while i < 8
            invariant
                i <= 8,
                g@.len() == 8,
                out@ == join_full_groups(g@.subrange(0, i as int)),
            decreases 8 - i,
        {
            let ghost pre = g@.subrange(0, i as int + 1);
            assert(pre.drop_last() =~= g@.subrange(0, i as int));
            if i > 0 {
                push_char(&mut out, ':');
            }
            push_hex_padded(&mut out, g[i] as u128, 4);
            i += 1;
            assert(out@ =~= join_full_groups(pre));
        }
        assert(g@.subrange(0, 8) =~= g@);
        out
    }
}

/// Appends the groups `g[a..b]`, as `join_groups` writes them.
fn push_groups(out: &mut String, g: &Vec<u16>, a: usize, b: usize)
    requires
        a <= b <= g@.len(),
    ensures
        final(out)@ == old(out)@ + join_groups(g@.subrange(a as int, b as int)),
{
    let mut i: usize = a;
    assert(g@.subrange(a as int, a as int) =~= Seq::<u16>::empty());
    assert(out@ =~= old(out)@ + join_groups(g@.subrange(a as int, a as int)));
    while i < b
        invariant
            a <= i <= b <= g@.len(),
            out@ == old(out)@ + join_groups(g@.subrange(a as int, i as int)),
        decreases b - i,
    {
        let ghost pre = g@.subrange(a as int, i as int + 1);
        assert(pre.drop_last() =~= g@.subrange(a as int, i as int));
        if i > a {
            push_char(out, ':');
        }
        push_hex(out, g[i] as u128);
        i += 1;
        proof {
            assert(out@ =~= old(out)@ + join_groups(pre));
        }
    }
}

impl Rangeable for IPv6Addr {
    open spec fn family(&self) -> Family {
        Family::IPv6
    }

    closed spec fn value(&self) -> nat {
        self.value as nat
    }

    open spec fn wf(&self) -> bool {
        true
    }

    closed spec fn with_value(&self, n: nat) -> Self {
        IPv6Addr { value: n as u128 }
    }

    proof fn lemma_value(&self) {
    }

    proof fn lemma_with_value(&self, n: nat) {
    }

    fn family_of(&self) -> (r: Family) {
        Family::IPv6
    }

    fn add_offset(&self, n: u128) -> (r: Self) {
        IPv6Addr { value: wrapping_add_u128(self.value, n) }
    }

    fn sub_offset(&self, n: u128) -> (r: Self) {
        IPv6Addr { value: wrapping_sub_u128(self.value, n) }
    }

    fn le(&self, other: &Self) -> (r: bool) {
        self.value <= other.value
    }
}

/// `(x + n) mod 2^128`.
pub fn wrapping_add_u128(x: u128, n: u128) -> (r: u128)
    ensures
        r == (x + n) % (u128::MAX as int + 1),
{
    proof {
        lemma_wrap(x + n, u128::MAX as int + 1);
    }
    if x <= u128::MAX - n {
        x + n
    } else {
        x - (u128::MAX - n) - 1
    }
}

/// `(x - n) mod 2^128`.
pub fn wrapping_sub_u128(x: u128, n: u128) -> (r: u128)
    ensures
        r == (x - n) % (u128::MAX as int + 1),
{
    proof {
        lemma_wrap(x - n, u128::MAX as int + 1);
    }
    if x >= n {
        x - n
    } else {
        u128::MAX - (n - x) + 1
    }
}

impl crate::addr_range::IntoAddr for IPv6Addr {
    fn into_addr(self) -> (r: crate::addr::Addr) {
        crate::addr::Addr::IPv6(self)
    }
}

impl AddrText for IPv6Addr {
    open spec fn text_family() -> Family {
        Family::IPv6
    }

    open spec fn parse_text(s: Seq<char>) -> Option<nat> {
        ipv6_of_text(s)
    }

    proof fn lemma_parse_text(s: Seq<char>) {
        lemma_pow_group_values();
        if !is_numeral(s) {
            match find_double_colon(s) {
                Some(i) => {
                    match (
                        groups_of(s.subrange(0, i as int), false),
                        groups_of(s.subrange(i + 2 as int, s.len() as int), true),
                    ) {
                        (Some(h), Some(t)) => {
                            if h.len() + t.len() <= 7 {
                                let all = h + Seq::new(
                                    (8 - h.len() - t.len()) as nat,
                                    |k: int| 0u16,
                                ) + t;
                                assert(all.len() == 8);
                                lemma_groups_value_bound(all);
                            }
                        },
                        _ => {},
                    }
                },
                None => {
                    if let Some(g) = groups_of(s, true) {
                        lemma_groups_value_bound(g);
                    }
                },
            }
        }
    }

    fn text_family_exec() -> (r: Family) {
        Family::IPv6
    }

    fn parse_chars(s: &Vec<char>, lo: usize, hi: usize) -> (r: Option<Self>) {
        if is_numeral_exec(s, lo, hi) {
            return match parse_decimal(s, lo, hi) {
                Some(n) => Some(IPv6Addr { value: n }),
                None => None,
            };
        }
        match parse_colon_hex(s, lo, hi) {
            Some(v) => Some(IPv6Addr { value: v }),
            None => None,
        }
    }
}

proof fn lemma_join_full(g: Seq<u16>)
    requires
        g.len() >= 1,
    ensures
        split(join_full_groups(g), ':') == Seq::new(g.len(), |i: int| hex_padded(g[i] as nat, 4)),
        join_full_groups(g).len() > 0,
        is_hex_digit(join_full_groups(g)[0]),
        is_hex_digit(join_full_groups(g).last()),
        forall|j: int|
            0 <= j < join_full_groups(g).len() - 1 ==> !(#[trigger] join_full_groups(g)[j] == ':'
                && join_full_groups(g)[j + 1] == ':'),
    decreases g.len(),
{
    let s = join_full_groups(g);
    let h = hex_padded(g.last() as nat, 4);
    lemma_hex_padded(g.last() as nat, 4);
    lemma_hex_padded_split(g.last() as nat, 4, ':');
    if g.len() == 1 {
        assert(s == h);
        assert(split(s, ':') =~= Seq::new(g.len(), |i: int| hex_padded(g[i] as nat, 4)));
    } else {
        let d = g.drop_last();
        let a = join_full_groups(d);
        lemma_join_full(d);
        lemma_split_join(a, ':', h);
        assert(s == a + seq![':'] + h);
        assert(split(s, ':') =~= Seq::new(g.len(), |i: int| hex_padded(g[i] as nat, 4)));
        assert(s[0] == a[0]);
        assert(s.last() == h.last());
        assert forall|j: int| 0 <= j < s.len() - 1 implies !(#[trigger] s[j] == ':' && s[j + 1]
            == ':') by {
            if j < a.len() - 1 {
                assert(s[j] == a[j] && s[j + 1] == a[j + 1]);
            } else if j == a.len() - 1 {
                assert(s[j] == a.last());
            } else if j == a.len() {
                assert(s[j + 1] == h[0]);
            } else {
                assert(s[j] == h[j - a.len() - 1]);
            }
        }
    }
}

proof fn lemma_groups_value_of(v: nat, k: nat)
    requires
        v <= u128::MAX,
        k <= 8,
    ensures
        groups_value(ipv6_groups(v).subrange(0, k as int)) == v / pow_group((8 - k) as nat),
    decreases k,
{
    lemma_pow_group_values();
    let g = ipv6_groups(v);
    if k == 0 {
        assert(g.subrange(0, 0) =~= Seq::<u16>::empty());
        vstd::arithmetic::div_mod::lemma_basic_div(v as int, pow_group(8) as int);
    } else {
        lemma_groups_value_of(v, (k - 1) as nat);
        let pre = g.subrange(0, k as int);
        assert(pre.drop_last() =~= g.subrange(0, k - 1));
        let p = pow_group((8 - k) as nat);
        lemma_pow_group_positive((8 - k) as nat);
        assert(pow_group((8 - (k - 1)) as nat) == p * 0x1_0000);
        lemma_next_digit(v, p, 0x1_0000);
        vstd::arithmetic::div_mod::lemma_mod_bound((v / p) as int, 0x1_0000);
        assert(pre.last() as nat == (v / p) % 0x1_0000);
        assert(groups_value(pre) == groups_value(pre.drop_last()) * 0x1_0000 + pre.last() as nat);
        assert(groups_value(pre.drop_last()) == v / (p * 0x1_0000));
    }
}

/// Reading the full text of an IPv6 address gives the address back.
pub proof fn lemma_ipv6_full_round_trip(v: nat)
    requires
        v <= u128::MAX,
    ensures
        ipv6_of_text(ipv6_full_text(v)) == Some(v),
{
    let g = ipv6_groups(v);
    let s = ipv6_full_text(v);
    lemma_join_full(g);
    lemma_find_double_colon(s);
    let p = split(s, ':');
    assert(p.len() == 8);
    reveal_with_fuel(crate::text::pow16, 5);
    assert forall|k: int| 0 <= k < 8 implies is_group_text(#[trigger] p[k]) && hex_value(p[k])
        == g[k] as nat by {
        lemma_hex_padded(g[k] as nat, 4);
        assert(p[k] == hex_padded(g[k] as nat, 4));
        assert(crate::text::pow16(4) == 0x1_0000);
        assert forall|i: int| 0 <= i < p[k].len() implies is_hex_digit(#[trigger] p[k][i]) by {
            assert(is_hex_digit(hex_padded(g[k] as nat, 4)[i]));
        }
    }
    lemma_hex_padded_split(g[7] as nat, 4, '.');
    assert(split(p[7], '.').len() == 1);
    assert(dotted_quad(p[7]) is None);
    assert(Seq::new(8, |k: int| hex_value(p[k]) as u16) =~= g);
    lemma_groups_value_of(v, 8);
    assert(g.subrange(0, 8) =~= g);
    lemma_pow_group_values();
    assert(s.len() > 4 && s[4] == ':') by {
        reveal_with_fuel(join_full_groups, 9);
        lemma_hex_padded(g[0] as nat, 4);
    }
    assert(!is_hex_digit(s[4]));
    assert(!crate::text::is_digit(s[4]));
    assert(!is_numeral(s));
    if let Some(i) = find_double_colon(s) {
        assert(!(s[i as int] == ':' && s[i + 1 as int] == ':'));
    }
    assert(find_double_colon(s) is None);
    assert(s.len() != 0);
    assert(groups_of(s, true) == Some(g));
    assert(groups_value(g.subrange(0, 8)) == v / pow_group(0));
    assert(pow_group(0) == 1);
    assert(v / 1 == v) by (nonlinear_arith);
    assert(g.subrange(0, 8) == g);
    assert(groups_value(g) == v);
    assert(colon_hex(s) == Some(v));
}

proof fn lemma_join_groups(g: Seq<u16>)
    requires
        g.len() >= 1,
    ensures
        split(join_groups(g), ':') == Seq::new(g.len(), |i: int| hex_text(g[i] as nat)),
        join_groups(g).len() > 0,
        is_hex_digit(join_groups(g)[0]),
        is_hex_digit(join_groups(g).last()),
        forall|j: int|
            0 <= j < join_groups(g).len() - 1 ==> !(#[trigger] join_groups(g)[j] == ':'
                && join_groups(g)[j + 1] == ':'),
    decreases g.len(),
{
    let s = join_groups(g);
    let h = hex_text(g.last() as nat);
    lemma_hex_text(g.last() as nat);
    lemma_split_none(h, ':');
    if g.len() == 1 {
        assert(s == h);
        assert(split(s, ':') =~= Seq::new(g.len(), |i: int| hex_text(g[i] as nat)));
    } else {
        let d = g.drop_last();
        let a = join_groups(d);
        lemma_join_groups(d);
        lemma_split_join(a, ':', h);
        assert(s == a + seq![':'] + h);
        assert(split(s, ':') =~= Seq::new(g.len(), |i: int| hex_text(g[i] as nat)));
        assert(s[0] == a[0]);
        assert(s.last() == h.last());
        assert forall|j: int| 0 <= j < s.len() - 1 implies !(#[trigger] s[j] == ':' && s[j + 1]
            == ':') by {
            if j < a.len() - 1 {
                assert(s[j] == a[j] && s[j + 1] == a[j + 1]);
            } else if j == a.len() - 1 {
                assert(s[j] == a.last());
            } else if j == a.len() {
                assert(s[j + 1] == h[0]);
            } else {
                assert(s[j] == h[j - a.len() - 1]);
            }
        }
    }
}

/// The groups that joined groups are read as.
proof fn lemma_groups_of_join(g: Seq<u16>, v4: bool)
    ensures
        groups_of(join_groups(g), v4) == Some(g),
        forall|j: int|
            0 <= j < join_groups(g).len() - 1 ==> !(#[trigger] join_groups(g)[j] == ':'
                && join_groups(g)[j + 1] == ':'),
        g.len() > 0 ==> join_groups(g).len() > 0 && join_groups(g).last() != ':'
            && join_groups(g)[0] != ':',
        g.len() == 0 ==> join_groups(g).len() == 0,
{
    if g.len() > 0 {
        let s = join_groups(g);
        lemma_join_groups(g);
        let p = split(s, ':');
        assert forall|k: int| 0 <= k < g.len() implies is_group_text(#[trigger] p[k])
            && hex_value(p[k]) == g[k] as nat by {
            lemma_hex_text(g[k] as nat);
            assert(p[k] == hex_text(g[k] as nat));
        }
        let last = p[g.len() - 1];
        lemma_hex_text(g.last() as nat);
        lemma_split_none(last, '.');
        assert(dotted_quad(last) is None);
        assert(Seq::new(g.len(), |k: int| hex_value(p[k]) as u16) =~= g);
    }
}

/// The first `::` of `a + "::" + b` is the one between them, where `a` holds
/// no `::` and does not end with a colon.
proof fn lemma_find_join(a: Seq<char>, b: Seq<char>)
    requires
        forall|j: int| 0 <= j < a.len() - 1 ==> !(#[trigger] a[j] == ':' && a[j + 1] == ':'),
        a.len() > 0 ==> a.last() != ':',
    ensures
        find_double_colon(a + seq![':', ':'] + b) == Some(a.len()),
{
    let s = a + seq![':', ':'] + b;
    lemma_find_double_colon(s);
    assert(s[a.len() as int] == ':' && s[a.len() + 1 as int] == ':');
    if let Some(i) = find_double_colon(s) {
        if i < a.len() {
            if i + 1 < a.len() {
                assert(s[i as int] == a[i as int] && s[i + 1 as int] == a[i + 1 as int]);
            } else {
                assert(s[i as int] == a.last());
            }
        }
    }
}

/// The run of zero groups that a scan reports is one of zeros, and the
/// scan's current run ends where the scan stands.
proof fn lemma_zero_scan(g: Seq<u16>, i: nat)
    requires
        i <= g.len(),
    ensures
        zero_scan(g, i).2 + zero_scan(g, i).3 <= i,
        zero_scan(g, i).0 + zero_scan(g, i).1 <= i,
        zero_scan(g, i).1 > 0 ==> zero_scan(g, i).0 + zero_scan(g, i).1 == i,
        forall|j: int|
            zero_scan(g, i).2 <= j < zero_scan(g, i).2 + zero_scan(g, i).3 ==> g[j] == 0,
        forall|j: int|
            zero_scan(g, i).0 <= j < zero_scan(g, i).0 + zero_scan(g, i).1 ==> g[j] == 0,
    decreases i,
{
    if i > 0 {
        lemma_zero_scan(g, (i - 1) as nat);
    }
}

proof fn lemma_ipv4_text_chars(w: nat)
    ensures
        forall|i: int| 0 <= i < ipv4_text(w).len() ==> #[trigger] ipv4_text(w)[i] != ':',
        ipv4_text(w).len() > 0,
{
    let d0 = crate::text::dec_text(w / 0x100_0000 % 256);
    let d1 = crate::text::dec_text(w / 0x1_0000 % 256);
    let d2 = crate::text::dec_text(w / 0x100 % 256);
    let d3 = crate::text::dec_text(w % 256);
    crate::text::lemma_dec_text(w / 0x100_0000 % 256);
    crate::text::lemma_dec_text(w / 0x1_0000 % 256);
    crate::text::lemma_dec_text(w / 0x100 % 256);
    crate::text::lemma_dec_text(w % 256);
    let c = seq!['.'];
    let q = ipv4_text(w);
    assert forall|i: int| 0 <= i < q.len() implies #[trigger] q[i] != ':' by {
        let l0 = d0.len() as int;
        let l1 = d1.len() as int;
        let l2 = d2.len() as int;
        if i < l0 {
            assert(q[i] == d0[i]);
        } else if i == l0 {
            assert(q[i] == '.');
        } else if i < l0 + 1 + l1 {
            assert(q[i] == d1[i - l0 - 1]);
        } else if i == l0 + 1 + l1 {
            assert(q[i] == '.');
        } else if i < l0 + 2 + l1 + l2 {
            assert(q[i] == d2[i - l0 - l1 - 2]);
        } else if i == l0 + 2 + l1 + l2 {
            assert(q[i] == '.');
        } else {
            assert(q[i] == d3[i - l0 - l1 - l2 - 3]);
        }
    }
}

/// Text that splits at a colon into more than one piece is no numeral.
proof fn lemma_split_not_numeral(s: Seq<char>, sep: char)
    requires
        !crate::text::is_digit(sep),
        split(s, sep).len() > 1,
    ensures
        !is_numeral(s),
{
    if is_numeral(s) {
        assert forall|i: int| 0 <= i < s.len() implies s[i] != sep by {
            assert(crate::text::is_digit(s[i]));
        }
        lemma_split_none(s, sep);
    }
}

#[verifier::rlimit(100)]
proof fn lemma_round_trip_mapped(v: nat)
    requires
        v <= u128::MAX,
        is_v4_mapped(ipv6_groups(v)),
    ensures
        ipv6_of_text(ipv6_text(v)) == Some(v),
{
    let g = ipv6_groups(v);
    let s = ipv6_text(v);
    lemma_groups_value_of(v, 8);
    lemma_pow_group_values();
    assert(v / 1 == v) by (nonlinear_arith);
    assert(g.subrange(0, 8) == g);
    let w = v % 0x1_0000_0000;
    let q = ipv4_text(w);
    let f = seq!['f', 'f', 'f', 'f'];
    crate::ipv4addr::lemma_ipv4_round_trip(w);
    lemma_ipv4_text_chars(w);
    lemma_split_none(q, ':');
    assert(dotted_quad(q) == Some(w));
    let tail = f + seq![':'] + q;
    assert(s =~= seq![':', ':'] + tail);
    assert(Seq::<char>::empty() + seq![':', ':'] + tail =~= s);
    lemma_find_join(Seq::<char>::empty(), tail);
    assert(s.subrange(0, 0) =~= Seq::<char>::empty());
    assert(s.subrange(2, s.len() as int) =~= tail);
    lemma_split_none(f, ':');
    lemma_split_join(f, ':', q);
    let p = split(tail, ':');
    assert(p =~= seq![f, q]);
    reveal_with_fuel(hex_value, 5);
    assert(f.drop_last().drop_last().drop_last().drop_last() =~= Seq::<char>::empty());
    assert(hex_value(f) == 0xffff);
    assert(is_group_text(p[0]));
    let t = seq![0xffffu16, (w / 0x1_0000) as u16, (w % 0x1_0000) as u16];
    assert(groups_of(tail, true) == Some(t)) by {
        assert(Seq::new(1, |k: int| hex_value(p[k]) as u16).push((w / 0x1_0000) as u16).push(
            (w % 0x1_0000) as u16,
        ) =~= t);
    }
    vstd::arithmetic::div_mod::lemma_mod_breakdown(v as int, 0x1_0000, 0x1_0000);
    vstd::arithmetic::div_mod::lemma_mod_mod(v as int, 0x1_0000, 0x1_0000);
    vstd::arithmetic::div_mod::lemma_fundamental_div_mod_converse(
        w as int,
        0x1_0000,
        ((v / 0x1_0000) % 0x1_0000) as int,
        (v % 0x1_0000) as int,
    );
    assert(Seq::<u16>::empty() + Seq::new(5, |k: int| 0u16) + t =~= g);
    assert(!crate::text::is_digit(s[0]));
}

#[verifier::rlimit(100)]
proof fn lemma_round_trip_run(v: nat)
    requires
        v <= u128::MAX,
        !is_v4_mapped(ipv6_groups(v)),
        zero_scan(ipv6_groups(v), 8).3 > 1,
    ensures
        ipv6_of_text(ipv6_text(v)) == Some(v),
{
    let g = ipv6_groups(v);
    let s = ipv6_text(v);
    lemma_groups_value_of(v, 8);
    lemma_pow_group_values();
    assert(v / 1 == v) by (nonlinear_arith);
    assert(g.subrange(0, 8) == g);
    let bs = zero_scan(g, 8).2;
    let bl = zero_scan(g, 8).3;
    lemma_zero_scan(g, 8);
    let hg = g.subrange(0, bs as int);
    let tg = g.subrange(bs + bl as int, 8);
    lemma_groups_of_join(hg, false);
    lemma_groups_of_join(tg, true);
    let a = join_groups(hg);
    let b = join_groups(tg);
    lemma_find_join(a, b);
    let t = a + seq![':', ':'] + b;
    assert(s == t);
    assert(t.subrange(0, a.len() as int) =~= a);
    assert(t.subrange(a.len() + 2 as int, t.len() as int) =~= b);
    assert(hg + Seq::new((8 - hg.len() - tg.len()) as nat, |k: int| 0u16) + tg =~= g);
    assert(s[a.len() as int] == ':');
    assert(!crate::text::is_digit(s[a.len() as int]));
}

proof fn lemma_round_trip_plain(v: nat)
    requires
        v <= u128::MAX,
        !is_v4_mapped(ipv6_groups(v)),
        zero_scan(ipv6_groups(v), 8).3 <= 1,
    ensures
        ipv6_of_text(ipv6_text(v)) == Some(v),
{
    let g = ipv6_groups(v);
    let s = ipv6_text(v);
    lemma_groups_value_of(v, 8);
    lemma_pow_group_values();
    assert(v / 1 == v) by (nonlinear_arith);
    assert(g.subrange(0, 8) == g);
    assert(s == join_groups(g));
    lemma_groups_of_join(g, true);
    lemma_join_groups(g);
    lemma_find_double_colon(s);
    if let Some(i) = find_double_colon(s) {
        assert(!(s[i as int] == ':' && s[i + 1 as int] == ':'));
    }
    lemma_split_not_numeral(s, ':');
}

/// Reading the standard text of an IPv6 address gives the address back.
pub proof fn lemma_ipv6_round_trip(v: nat)
    requires
        v <= u128::MAX,
    ensures
        ipv6_of_text(ipv6_text(v)) == Some(v),
{
    if is_v4_mapped(ipv6_groups(v)) {
        lemma_round_trip_mapped(v);
    } else if zero_scan(ipv6_groups(v), 8).3 > 1 {
        lemma_round_trip_run(v);
    } else {
        lemma_round_trip_plain(v);
    }
}

} // verus!
