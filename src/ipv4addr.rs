//! IPv4 addresses.
use vstd::prelude::*;
use crate::addr_range::{lemma_wrap, AddrText, Family, Rangeable};
use crate::text::{
    chars_of, dec_text, dec_value, is_digit, is_numeral, is_numeral_exec, lemma_dec_text,
    lemma_dec_text_split, lemma_next_digit, lemma_split_join, numeral_below, parse_decimal,
    push_char, push_decimal, split, split_bounds,
};

verus! {

/// One part of a dotted quad: one to three decimal digits without a leading
/// zero, at most 255.
pub open spec fn quad_part(t: Seq<char>) -> Option<nat> {
    if is_numeral(t) && t.len() <= 3 && (t.len() == 1 || t[0] != '0') && dec_value(t) < 256 {
        Some(dec_value(t))
    } else {
        None
    }
}

/// The magnitude of the first `k` parts of a dotted quad.
pub open spec fn quad_value(p: Seq<Seq<char>>, k: nat) -> nat
    decreases k,
{
    if k == 0 {
        0
    } else {
        quad_value(p, (k - 1) as nat) * 256 + dec_value(p[k - 1])
    }
}

/// The magnitude of a dotted quad: four parts joined by dots.
pub open spec fn dotted_quad(s: Seq<char>) -> Option<nat> {
    let p = split(s, '.');
    if p.len() == 4 && forall|k: int| 0 <= k < 4 ==> (#[trigger] quad_part(p[k])) is Some {
        Some(quad_value(p, 4))
    } else {
        None
    }
}

/// The magnitude that `s` denotes as an IPv4 address: a decimal numeral
/// below `2^32`, or a dotted quad.
pub open spec fn ipv4_of_text(s: Seq<char>) -> Option<nat> {
    if is_numeral(s) {
        numeral_below(s, 0x1_0000_0000)
    } else {
        dotted_quad(s)
    }
}

/// The dotted-quad text of the IPv4 address with magnitude `v`.
pub open spec fn ipv4_text(v: nat) -> Seq<char> {
    dec_text(v / 0x100_0000 % 256) + seq!['.'] + dec_text(v / 0x1_0000 % 256) + seq!['.']
        + dec_text(v / 0x100 % 256) + seq!['.'] + dec_text(v % 256)
}

/// The value of `s[lo..hi]` as one part of a dotted quad.
fn parse_quad_part(s: &Vec<char>, lo: usize, hi: usize) -> (r: Option<u8>)
    requires
        lo <= hi <= s@.len(),
    ensures
        r == (match quad_part(s@.subrange(lo as int, hi as int)) {
            Some(v) => Some(v as u8),
            None => None::<u8>,
        }),
{
    let ghost t = s@.subrange(lo as int, hi as int);
    if hi - lo > 3 || (hi - lo > 1 && s[lo] == '0') {
        return None;
    }
    match parse_decimal(s, lo, hi) {
        Some(v) => if v < 256 {
            Some(v as u8)
        } else {
            None
        },
        None => None,
    }
}

/// The magnitude of `s[lo..hi]` read as a dotted quad.
pub fn parse_dotted_quad(s: &Vec<char>, lo: usize, hi: usize) -> (r: Option<u32>)
    requires
        lo <= hi <= s@.len(),
    ensures
        r == (match dotted_quad(s@.subrange(lo as int, hi as int)) {
            Some(v) => Some(v as u32),
            None => None::<u32>,
        }),
        r is Some ==> dotted_quad(s@.subrange(lo as int, hi as int))->0 < 0x1_0000_0000,
{
    let ghost t = s@.subrange(lo as int, hi as int);
    let bounds = split_bounds(s, lo, hi, '.');
    let ghost p = split(t, '.');
    if bounds.len() != 4 {
        return None;
    }
    let mut value: u32 = 0;
    let mut k: usize = 0;
    while k < 4
        invariant
            0 <= k <= 4,
            lo <= hi <= s@.len(),
            bounds@.len() == 4,
            p == split(t, '.'),
            p.len() == 4,
            t == s@.subrange(lo as int, hi as int),
            forall|j: int|
                0 <= j < 4 ==> lo <= (#[trigger] bounds@[j]).0 <= bounds@[j].1 <= hi
                    && s@.subrange(bounds@[j].0 as int, bounds@[j].1 as int) == p[j],
            forall|j: int| 0 <= j < k ==> (#[trigger] quad_part(p[j])) is Some,
            value == quad_value(p, k as nat),
            k == 0 ==> value == 0,
            k == 1 ==> value < 0x100,
            k == 2 ==> value < 0x1_0000,
            k == 3 ==> value < 0x100_0000,
        decreases 4 - k,
    {
        let (a, z) = bounds[k];
        assert(bounds@[k as int] == (a, z));
        assert(s@.subrange(a as int, z as int) == p[k as int]);
        match parse_quad_part(s, a, z) {
            Some(x) => {
                assert(quad_value(p, k as nat + 1) == value * 256 + x);
                value = value * 256 + x as u32;
            },
            None => {
                return None;
            },
        }
        k += 1;
    }
    Some(value)
}

/// An IPv4 address.
#[derive(Debug, PartialEq, Eq, PartialOrd, Ord, Clone, Copy)]
pub struct IPv4Addr {
    value: u32,
}

impl IPv4Addr {
    /// The address `b1.b2.b3.b4`.
    pub fn new(b1: u8, b2: u8, b3: u8, b4: u8) -> (r: IPv4Addr)
        ensures
            r.value() == b1 * 0x100_0000 + b2 * 0x1_0000 + b3 * 0x100 + b4,
    {
        IPv4Addr { value: b1 as u32 * 0x100_0000 + b2 as u32 * 0x1_0000 + b3 as u32 * 0x100 + b4 as u32 }
    }

    pub fn from_u32(n: u32) -> (r: IPv4Addr)
        ensures
            r.value() == n,
    {
        IPv4Addr { value: n }
    }

    pub fn to_u32(&self) -> (r: u32)
        ensures
            r == self.value(),
    {
        self.value
    }

    /// Reads an IPv4 address: a decimal numeral below `2^32`, or a dotted
    /// quad.
    pub fn from_str(s: &str) -> (r: Result<IPv4Addr, ()>)
        ensures
            match ipv4_of_text(s@) {
                Some(v) => r is Ok && r->Ok_0.value() == v,
                None => r is Err,
            },
    {
        let chars = chars_of(s);
        proof {
            assert(chars@.subrange(0, chars@.len() as int) =~= s@);
        }
        match IPv4Addr::parse_chars(&chars, 0, chars.len()) {
            Some(a) => Ok(a),
            None => Err(()),
        }
    }

    /// The dotted-quad text.
    pub fn to_string(&self) -> (r: String)
        ensures
            r@ == ipv4_text(self.value()),
    {
        let mut out = String::new();
        push_dotted_quad(&mut out, self.value);
        out
    }
}

/// Appends the dotted-quad text of `v`.
pub fn push_dotted_quad(out: &mut String, v: u32)
    ensures
        final(out)@ == old(out)@ + ipv4_text(v as nat),
{
    push_decimal(out, (v / 0x100_0000 % 256) as u128);
    push_char(out, '.');
    push_decimal(out, (v / 0x1_0000 % 256) as u128);
    push_char(out, '.');
    push_decimal(out, (v / 0x100 % 256) as u128);
    push_char(out, '.');
    push_decimal(out, (v % 256) as u128);
    assert(final(out)@ =~= old(out)@ + ipv4_text(v as nat));
}

impl Rangeable for IPv4Addr {
    open spec fn family(&self) -> Family {
        Family::IPv4
    }

    closed spec fn value(&self) -> nat {
        self.value as nat
    }

    open spec fn wf(&self) -> bool {
        true
    }

    closed spec fn with_value(&self, n: nat) -> Self {
        IPv4Addr { value: n as u32 }
    }

    proof fn lemma_value(&self) {
    }

    proof fn lemma_with_value(&self, n: nat) {
    }

    fn family_of(&self) -> (r: Family) {
        Family::IPv4
    }

    fn add_offset(&self, n: u128) -> (r: Self) {
        let d = (n % 0x1_0000_0000) as u64;
        let sum = self.value as u64 + d;
        let value = if sum >= 0x1_0000_0000 {
            (sum - 0x1_0000_0000) as u32
        } else {
            sum as u32
        };
        proof {
            vstd::arithmetic::div_mod::lemma_add_mod_noop_right(
                self.value as int,
                n as int,
                0x1_0000_0000,
            );
            lemma_wrap(self.value + d, 0x1_0000_0000);
        }
        IPv4Addr { value }
    }

    fn sub_offset(&self, n: u128) -> (r: Self) {
        let d = (n % 0x1_0000_0000) as u64;
        let x = self.value as u64;
        let value = if x >= d {
            (x - d) as u32
        } else {
            (x + 0x1_0000_0000 - d) as u32
        };
        proof {
            vstd::arithmetic::div_mod::lemma_sub_mod_noop_right(
                self.value as int,
                n as int,
                0x1_0000_0000,
            );
            lemma_wrap(self.value - d, 0x1_0000_0000);
        }
        IPv4Addr { value }
    }

    fn le(&self, other: &Self) -> (r: bool) {
        self.value <= other.value
    }
}

impl crate::addr_range::IntoAddr for IPv4Addr {
    fn into_addr(self) -> (r: crate::addr::Addr) {
        crate::addr::Addr::IPv4(self)
    }
}

impl AddrText for IPv4Addr {
    open spec fn text_family() -> Family {
        Family::IPv4
    }

    open spec fn parse_text(s: Seq<char>) -> Option<nat> {
        ipv4_of_text(s)
    }

    proof fn lemma_parse_text(s: Seq<char>) {
        if !is_numeral(s) && dotted_quad(s) is Some {
            lemma_quad_bound(split(s, '.'));
        }
    }

    fn text_family_exec() -> (r: Family) {
        Family::IPv4
    }

    fn parse_chars(s: &Vec<char>, lo: usize, hi: usize) -> (r: Option<Self>) {
        if is_numeral_exec(s, lo, hi) {
            return match parse_decimal(s, lo, hi) {
                Some(n) => if n <= u32::MAX as u128 {
                    Some(IPv4Addr { value: n as u32 })
                } else {
                    None
                },
                None => None,
            };
        }
        match parse_dotted_quad(s, lo, hi) {
            Some(v) => Some(IPv4Addr { value: v }),
            None => None,
        }
    }
}

proof fn lemma_quad_bound(p: Seq<Seq<char>>)
    requires
        p.len() == 4,
        forall|k: int| 0 <= k < 4 ==> (#[trigger] quad_part(p[k])) is Some,
    ensures
        quad_value(p, 4) < 0x1_0000_0000,
{
    assert(quad_part(p[0]) is Some);
    assert(quad_part(p[1]) is Some);
    assert(quad_part(p[2]) is Some);
    assert(quad_part(p[3]) is Some);
    reveal_with_fuel(quad_value, 5);
}

/// Reading the dotted-quad text of an IPv4 address gives the address back.
pub proof fn lemma_ipv4_round_trip(v: nat)
    requires
        v < 0x1_0000_0000,
    ensures
        ipv4_of_text(ipv4_text(v)) == Some(v),
        dotted_quad(ipv4_text(v)) == Some(v),
{
    let o0 = v / 0x100_0000 % 256;
    let o1 = v / 0x1_0000 % 256;
    let o2 = v / 0x100 % 256;
    let o3 = v % 256;
    let d0 = dec_text(o0);
    let d1 = dec_text(o1);
    let d2 = dec_text(o2);
    let d3 = dec_text(o3);
    let c = seq!['.'];
    lemma_dec_text_split(o0, '.');
    lemma_dec_text_split(o1, '.');
    lemma_dec_text_split(o2, '.');
    lemma_dec_text_split(o3, '.');
    lemma_split_join(d0, '.', d1);
    lemma_split_join(d0 + c + d1, '.', d2);
    lemma_split_join(d0 + c + d1 + c + d2, '.', d3);
    let s = ipv4_text(v);
    let p = split(s, '.');
    assert(p =~= seq![d0, d1, d2, d3]);
    lemma_dec_text(o0);
    lemma_dec_text(o1);
    lemma_dec_text(o2);
    lemma_dec_text(o3);
    assert(quad_part(p[0]) == Some(o0));
    assert(quad_part(p[1]) == Some(o1));
    assert(quad_part(p[2]) == Some(o2));
    assert(quad_part(p[3]) == Some(o3));
    assert forall|k: int| 0 <= k < 4 implies (#[trigger] quad_part(p[k])) is Some by {}
    reveal_with_fuel(quad_value, 5);
    lemma_next_digit(v, 0x1_0000, 256);
    lemma_next_digit(v, 0x100, 256);
    lemma_next_digit(v, 1, 256);
    assert(quad_value(p, 1) == v / 0x100_0000);
    assert(quad_value(p, 2) == v / 0x1_0000);
    assert(quad_value(p, 3) == v / 0x100);
    assert(quad_value(p, 4) == v);
    assert(s[d0.len() as int] == '.');
    assert(!is_digit(s[d0.len() as int]));
    assert(!is_numeral(s));
}

} // verus!
