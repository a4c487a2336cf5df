//! MAC-48 addresses.
use vstd::prelude::*;
use crate::addr_range::{AddrText, Family, Rangeable};
use crate::text::{
    chars_of, hex_digit_exec, hex_padded, lemma_hex_pair, lemma_hex_padded, lemma_hex_padded_split,
    lemma_next_digit, lemma_split_join, hex_value, is_hex_digit, is_hex_numeral, is_numeral,
    is_numeral_exec, numeral_below, parse_decimal, push_char, push_hex_padded, split, split_bounds,
};

verus! {

pub const MAC_MAX: u64 = 0xffff_ffff_ffff;

/// The magnitude of the first `k` two-digit octets of `p`, most significant
/// first.
pub open spec fn octets_value(p: Seq<Seq<char>>, k: nat) -> nat
    decreases k,
{
    if k == 0 {
        0
    } else {
        octets_value(p, (k - 1) as nat) * 256 + hex_value(p[k - 1])
    }
}

/// The canonical text of a MAC address: six colon-separated octets of two
/// hexadecimal digits each.
pub open spec fn mac_octets(s: Seq<char>) -> Option<nat> {
    let p = split(s, ':');
    if p.len() == 6 && forall|k: int|
        0 <= k < 6 ==> is_hex_numeral(#[trigger] p[k]) && p[k].len() == 2 {
        Some(octets_value(p, 6))
    } else {
        None
    }
}

/// The magnitude that `s` denotes as a MAC address: a decimal numeral below
/// `2^48`, or the canonical text.
pub open spec fn mac_of_text(s: Seq<char>) -> Option<nat> {
    if is_numeral(s) {
        numeral_below(s, 0x1_0000_0000_0000)
    } else {
        mac_octets(s)
    }
}

/// The canonical text of the MAC address with magnitude `v`.
pub open spec fn mac_text(v: nat) -> Seq<char> {
    hex_padded(v / 0x100_0000_0000, 2) + seq![':'] + hex_padded(v / 0x1_0000_0000, 2) + seq![':']
        + hex_padded(v / 0x100_0000, 2) + seq![':'] + hex_padded(v / 0x1_0000, 2) + seq![':']
        + hex_padded(v / 0x100, 2) + seq![':'] + hex_padded(v, 2)
}

/// A MAC-48 address.
#[derive(Debug, PartialEq, Eq, PartialOrd, Ord, Clone, Copy)]
pub struct MacAddr {
    value: u64,
}

impl MacAddr {
    /// The address with the octets `b1` to `b6`, most significant first.
    pub fn new(b1: u8, b2: u8, b3: u8, b4: u8, b5: u8, b6: u8) -> (r: MacAddr)
        ensures
            r.wf(),
            r.value() == b1 * 0x100_0000_0000 + b2 * 0x1_0000_0000 + b3 * 0x100_0000 + b4
                * 0x1_0000 + b5 * 0x100 + b6,
    {
        let value = b1 as u64 * 0x100_0000_0000 + b2 as u64 * 0x1_0000_0000 + b3 as u64
            * 0x100_0000 + b4 as u64 * 0x1_0000 + b5 as u64 * 0x100 + b6 as u64;
        MacAddr { value }
    }

    /// The address whose magnitude is the low 48 bits of `n`.
    pub fn from_u64(n: u64) -> (r: MacAddr)
        ensures
            r.wf(),
            r.value() == n % 0x1_0000_0000_0000,
    {
        MacAddr { value: n % 0x1_0000_0000_0000 }
    }

    pub fn to_u64(&self) -> (r: u64)
        ensures
            r == self.value(),
    {
        self.value
    }

    /// Reads a MAC address: a decimal numeral below `2^48`, or six
    /// colon-separated octets of two hexadecimal digits.
    pub fn try_from(s: &str) -> (r: Result<MacAddr, ()>)
        ensures
            match mac_of_text(s@) {
                Some(v) => r is Ok && r->Ok_0.wf() && r->Ok_0.value() == v,
                None => r is Err,
            },
    {
        let chars = chars_of(s);
        proof {
            assert(chars@.subrange(0, chars@.len() as int) =~= s@);
        }
        match MacAddr::parse_chars(&chars, 0, chars.len()) {
            Some(m) => Ok(m),
            None => Err(()),
        }
    }

    /// The canonical text: six lowercase two-digit octets joined by colons.
    pub fn to_string(&self) -> (r: String)
        ensures
            r@ == mac_text(self.value()),
    {
        let v = self.value as u128;
        let mut out = String::new();
        push_hex_padded(&mut out, v / 0x100_0000_0000, 2);
        push_char(&mut out, ':');
        push_hex_padded(&mut out, v / 0x1_0000_0000, 2);
        push_char(&mut out, ':');
        push_hex_padded(&mut out, v / 0x100_0000, 2);
        push_char(&mut out, ':');
        push_hex_padded(&mut out, v / 0x1_0000, 2);
        push_char(&mut out, ':');
        push_hex_padded(&mut out, v / 0x100, 2);
        push_char(&mut out, ':');
        push_hex_padded(&mut out, v, 2);
        assert(out@ =~= mac_text(self.value()));
        out
    }
}

impl Rangeable for MacAddr {
    open spec fn family(&self) -> Family {
        Family::Mac
    }

    closed spec fn value(&self) -> nat {
        self.value as nat
    }

    closed spec fn wf(&self) -> bool {
        self.value <= MAC_MAX
    }

    closed spec fn with_value(&self, n: nat) -> Self {
        MacAddr { value: n as u64 }
    }

    proof fn lemma_value(&self) {
    }

    proof fn lemma_with_value(&self, n: nat) {
    }

    fn family_of(&self) -> (r: Family) {
        Family::Mac
    }

    fn add_offset(&self, n: u128) -> (r: Self) {
        let d = (n % 0x1_0000_0000_0000) as u64;
        let value = (self.value + d) % 0x1_0000_0000_0000;
        proof {
            vstd::arithmetic::div_mod::lemma_add_mod_noop_right(
                self.value as int,
                n as int,
                0x1_0000_0000_0000,
            );
        }
        MacAddr { value }
    }

    fn sub_offset(&self, n: u128) -> (r: Self) {
        let d = (n % 0x1_0000_0000_0000) as u64;
        let value = if self.value >= d {
            self.value - d
        } else {
            self.value + 0x1_0000_0000_0000 - d
        };
        proof {
            vstd::arithmetic::div_mod::lemma_sub_mod_noop_right(
                self.value as int,
                n as int,
                0x1_0000_0000_0000,
            );
            if self.value >= d {
                vstd::arithmetic::div_mod::lemma_fundamental_div_mod_converse(
                    self.value - d,
                    0x1_0000_0000_0000,
                    0,
                    self.value - d,
                );
            } else {
                vstd::arithmetic::div_mod::lemma_fundamental_div_mod_converse(
                    self.value - d,
                    0x1_0000_0000_0000,
                    -1,
                    self.value + 0x1_0000_0000_0000 - d,
                );
            }
        }
        MacAddr { value }
    }

    fn le(&self, other: &Self) -> (r: bool) {
        self.value <= other.value
    }
}

impl crate::addr_range::IntoAddr for MacAddr {
    fn into_addr(self) -> (r: crate::addr::Addr) {
        crate::addr::Addr::Mac(self)
    }
}

impl AddrText for MacAddr {
    open spec fn text_family() -> Family {
        Family::Mac
    }

    open spec fn parse_text(s: Seq<char>) -> Option<nat> {
        mac_of_text(s)
    }

    proof fn lemma_parse_text(s: Seq<char>) {
        let p = split(s, ':');
        if !is_numeral(s) && mac_octets(s) is Some {
            lemma_pow256_values();
            lemma_octets_bound(p, 6);
        }
    }

    fn text_family_exec() -> (r: Family) {
        Family::Mac
    }

    fn parse_chars(s: &Vec<char>, lo: usize, hi: usize) -> (r: Option<Self>) {
        let ghost t = s@.subrange(lo as int, hi as int);
        if is_numeral_exec(s, lo, hi) {
            return match parse_decimal(s, lo, hi) {
                Some(n) => if n <= MAC_MAX as u128 {
                    Some(MacAddr { value: n as u64 })
                } else {
                    None
                },
                None => None,
            };
        }
        let bounds = split_bounds(s, lo, hi, ':');
        let ghost p = split(t, ':');
        if bounds.len() != 6 {
            return None;
        }
        let mut value: u64 = 0;
        let mut k: usize = 0;
        proof {
            lemma_pow256_values();
        }
        while k < 6
            invariant
                0 <= k <= 6,
                lo <= hi <= s@.len(),
                !is_numeral(t),
                bounds@.len() == 6,
                p == split(t, ':'),
                p.len() == 6,
                t == s@.subrange(lo as int, hi as int),
                forall|j: int|
                    0 <= j < 6 ==> lo <= (#[trigger] bounds@[j]).0 <= bounds@[j].1 <= hi
                        && s@.subrange(bounds@[j].0 as int, bounds@[j].1 as int) == p[j],
                forall|j: int| 0 <= j < k ==> is_hex_numeral(#[trigger] p[j]) && p[j].len() == 2,
                value == octets_value(p, k as nat),
                pow256(k as nat) <= 0x1_0000_0000_0000,
                k < 6 ==> pow256(k as nat) <= 0x100_0000_0000,
                pow256(6) == 0x1_0000_0000_0000,
                octets_value(p, k as nat) < pow256(k as nat),
            decreases 6 - k,
        {
            let (a, z) = bounds[k];
            assert(bounds@[k as int] == (a, z));
            assert(s@.subrange(a as int, z as int) == p[k as int]);
            assert(p[k as int].len() == z - a);
            if z - a != 2 {
                assert(!(is_hex_numeral(p[k as int]) && p[k as int].len() == 2));
                return None;
            }
            let h1 = hex_digit_exec(s[a]);
            let h2 = hex_digit_exec(s[a + 1]);
            let piece = Ghost(p[k as int]);
            assert(piece@[0] == s@[a as int]);
            assert(piece@[1] == s@[a + 1]);
            match (h1, h2) {
                (Some(x), Some(y)) => {
                    proof {
                        assert forall|i: int| 0 <= i < 2 implies is_hex_digit(
                            #[trigger] piece@[i],
                        ) by {}
                        lemma_hex_pair(piece@);
                        assert(octets_value(p, k as nat + 1) == value * 256 + (x * 16 + y));
                        assert(value * 256 + (x * 16 + y) < pow256(k as nat) * 256) by (nonlinear_arith)
                            requires
                                value < pow256(k as nat),
                                x < 16,
                                y < 16,
                        ;
                    }
                    value = value * 256 + (x as u64 * 16 + y as u64);
                },
                _ => {
                    proof {
                        if h1 is None {
                            assert(!is_hex_digit(piece@[0]));
                        } else {
                            assert(!is_hex_digit(piece@[1]));
                        }
                        assert(!is_hex_numeral(p[k as int]));
                    }
                    return None;
                },
            }
            k += 1;
            proof {
                lemma_pow256_values();
            }
        }
        Some(MacAddr { value })
    }
}

pub open spec fn pow256(k: nat) -> nat
    decreases k,
{
    if k == 0 {
        1
    } else {
        256 * pow256((k - 1) as nat)
    }
}

proof fn lemma_pow256_values()
    ensures
        pow256(0) == 1,
        pow256(1) == 0x100,
        pow256(2) == 0x1_0000,
        pow256(3) == 0x100_0000,
        pow256(4) == 0x1_0000_0000,
        pow256(5) == 0x100_0000_0000,
        pow256(6) == 0x1_0000_0000_0000,
{
    reveal_with_fuel(pow256, 7);
}

proof fn lemma_octets_bound(p: Seq<Seq<char>>, k: nat)
    requires
        k <= p.len(),
        forall|j: int| 0 <= j < k ==> is_hex_numeral(#[trigger] p[j]) && p[j].len() == 2,
    ensures
        octets_value(p, k) < pow256(k),
    decreases k,
{
    if k > 0 {
        let j = k - 1;
        lemma_octets_bound(p, (k - 1) as nat);
        let q = p[j as int];
        lemma_hex_pair(q);
        let a = octets_value(p, (k - 1) as nat);
        let b = pow256((k - 1) as nat);
        assert(a * 256 + hex_value(q) < b * 256) by (nonlinear_arith)
            requires
                a < b,
                hex_value(q) < 256,
        ;
    }
}

/// Reading the canonical text of a MAC address gives the address back.
pub proof fn lemma_mac_round_trip(v: nat)
    requires
        v < 0x1_0000_0000_0000,
    ensures
        mac_of_text(mac_text(v)) == Some(v),
{
    let h0 = hex_padded(v / 0x100_0000_0000, 2);
    let h1 = hex_padded(v / 0x1_0000_0000, 2);
    let h2 = hex_padded(v / 0x100_0000, 2);
    let h3 = hex_padded(v / 0x1_0000, 2);
    let h4 = hex_padded(v / 0x100, 2);
    let h5 = hex_padded(v, 2);
    let c = seq![':'];
    lemma_hex_padded_split(v / 0x100_0000_0000, 2, ':');
    lemma_hex_padded_split(v / 0x1_0000_0000, 2, ':');
    lemma_hex_padded_split(v / 0x100_0000, 2, ':');
    lemma_hex_padded_split(v / 0x1_0000, 2, ':');
    lemma_hex_padded_split(v / 0x100, 2, ':');
    lemma_hex_padded_split(v, 2, ':');
    lemma_split_join(h0, ':', h1);
    lemma_split_join(h0 + c + h1, ':', h2);
    lemma_split_join(h0 + c + h1 + c + h2, ':', h3);
    lemma_split_join(h0 + c + h1 + c + h2 + c + h3, ':', h4);
    lemma_split_join(h0 + c + h1 + c + h2 + c + h3 + c + h4, ':', h5);
    let s = mac_text(v);
    let p = split(s, ':');
    assert(p =~= seq![h0, h1, h2, h3, h4, h5]);
    lemma_hex_padded(v / 0x100_0000_0000, 2);
    lemma_hex_padded(v / 0x1_0000_0000, 2);
    lemma_hex_padded(v / 0x100_0000, 2);
    lemma_hex_padded(v / 0x1_0000, 2);
    lemma_hex_padded(v / 0x100, 2);
    lemma_hex_padded(v, 2);
    reveal_with_fuel(crate::text::pow16, 3);
    assert forall|k: int| 0 <= k < 6 implies is_hex_numeral(#[trigger] p[k]) && p[k].len() == 2 by {}
    reveal_with_fuel(octets_value, 7);
    lemma_next_digit(v, 0x1_0000_0000, 256);
    lemma_next_digit(v, 0x100_0000, 256);
    lemma_next_digit(v, 0x1_0000, 256);
    lemma_next_digit(v, 0x100, 256);
    lemma_next_digit(v, 1, 256);
    assert(crate::text::pow16(2) == 256);
    assert(hex_value(p[0]) == (v / 0x100_0000_0000) % 256);
    assert(hex_value(p[5]) == v % 256);
    assert(octets_value(p, 1) == v / 0x100_0000_0000);
    assert(octets_value(p, 2) == v / 0x1_0000_0000);
    assert(octets_value(p, 3) == v / 0x100_0000);
    assert(octets_value(p, 4) == v / 0x1_0000);
    assert(octets_value(p, 5) == v / 0x100);
    assert(octets_value(p, 6) == v);
    assert(!is_hex_digit(s[2]));
    assert(!is_numeral(s));
}

} // verus!
