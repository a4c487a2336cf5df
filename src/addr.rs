//! A value of any of the four families, and the plain-integer family.
use vstd::prelude::*;
use core::cmp::Ordering;
use crate::addr_range::{AddrText, Family, IntoAddr, Rangeable};
use crate::ipv4addr::{ipv4_of_text, ipv4_text, lemma_ipv4_round_trip, IPv4Addr};
use crate::ipv6addr::{
    ipv6_full_text, ipv6_of_text, ipv6_text, lemma_ipv6_full_round_trip, lemma_ipv6_round_trip,
    wrapping_add_u128, wrapping_sub_u128, IPv6Addr,
};
use crate::macaddr::{lemma_mac_round_trip, mac_of_text, mac_text, MacAddr};
use crate::text::{dec_text, lemma_number_round_trip, numeral_below, parse_decimal, push_decimal};

verus! {

/// An address of one of the four families.
#[derive(Debug, PartialEq, Eq, Clone, Copy)]
pub enum Addr {
    IPv4(IPv4Addr),
    IPv6(IPv6Addr),
    Mac(MacAddr),
    Number(u128),
}

/// The canonical text of the value of family `f` with magnitude `v`.
pub open spec fn family_text(f: Family, v: nat) -> Seq<char> {
    match f {
        Family::Mac => mac_text(v),
        Family::IPv4 => ipv4_text(v),
        Family::IPv6 => ipv6_text(v),
        Family::Number => dec_text(v),
    }
}

impl Addr {
    /// The canonical text of the address in its family.
    pub fn to_string(&self) -> (r: String)
        requires
            self.wf(),
        ensures
            r@ == family_text(self.family(), self.value()),
    {
        match self {
            Addr::IPv4(a) => a.to_string(),
            Addr::IPv6(a) => a.to_string(),
            Addr::Mac(a) => a.to_string(),
            Addr::Number(n) => {
                let mut out = String::new();
                push_decimal(&mut out, *n);
                assert(out@ =~= dec_text(*n as nat));
                out
            },
        }
    }

    /// The full text of an IPv6 address: eight zero-padded groups; `None`
    /// for the other families.
    pub fn to_full_string(&self) -> (r: Option<String>)
        ensures
            self.family() == Family::IPv6 ==> r is Some && r->0@ == ipv6_full_text(self.value()),
            self.family() != Family::IPv6 ==> r is None,
    {
        match self {
            Addr::IPv6(a) => Some(a.to_full_string()),
            _ => None,
        }
    }

    /// Orders two addresses of one family by magnitude; addresses of
    /// different families are not ordered.
    pub fn partial_cmp(&self, other: &Addr) -> (r: Option<Ordering>)
        ensures
            self.family() != other.family() ==> r is None,
            self.family() == other.family() ==> r == Some(
                if self.value() < other.value() {
                    Ordering::Less
                } else if self.value() == other.value() {
                    Ordering::Equal
                } else {
                    Ordering::Greater
                },
            ),
    {
        if self.family_of() != other.family_of() {
            return None;
        }
        if !self.le(other) {
            Some(Ordering::Greater)
        } else if other.le(self) {
            Some(Ordering::Equal)
        } else {
            Some(Ordering::Less)
        }
    }
}

impl Rangeable for Addr {
    open spec fn family(&self) -> Family {
        match self {
            Addr::IPv4(_) => Family::IPv4,
            Addr::IPv6(_) => Family::IPv6,
            Addr::Mac(_) => Family::Mac,
            Addr::Number(_) => Family::Number,
        }
    }

    open spec fn value(&self) -> nat {
        match self {
            Addr::IPv4(a) => a.value(),
            Addr::IPv6(a) => a.value(),
            Addr::Mac(a) => a.value(),
            Addr::Number(n) => n.value(),
        }
    }

    open spec fn wf(&self) -> bool {
        match self {
            Addr::IPv4(a) => a.wf(),
            Addr::IPv6(a) => a.wf(),
            Addr::Mac(a) => a.wf(),
            Addr::Number(n) => n.wf(),
        }
    }

    open spec fn with_value(&self, n: nat) -> Self {
        match self {
            Addr::IPv4(a) => Addr::IPv4(a.with_value(n)),
            Addr::IPv6(a) => Addr::IPv6(a.with_value(n)),
            Addr::Mac(a) => Addr::Mac(a.with_value(n)),
            Addr::Number(x) => Addr::Number(x.with_value(n)),
        }
    }

    proof fn lemma_value(&self) {
        match self {
            Addr::IPv4(a) => a.lemma_value(),
            Addr::IPv6(a) => a.lemma_value(),
            Addr::Mac(a) => a.lemma_value(),
            Addr::Number(n) => n.lemma_value(),
        }
    }

    proof fn lemma_with_value(&self, n: nat) {
        match self {
            Addr::IPv4(a) => a.lemma_with_value(n),
            Addr::IPv6(a) => a.lemma_with_value(n),
            Addr::Mac(a) => a.lemma_with_value(n),
            Addr::Number(x) => x.lemma_with_value(n),
        }
    }

    fn family_of(&self) -> (r: Family) {
        match self {
            Addr::IPv4(_) => Family::IPv4,
            Addr::IPv6(_) => Family::IPv6,
            Addr::Mac(_) => Family::Mac,
            Addr::Number(_) => Family::Number,
        }
    }

    fn add_offset(&self, n: u128) -> (r: Self) {
        match self {
            Addr::IPv4(a) => Addr::IPv4(a.add_offset(n)),
            Addr::IPv6(a) => Addr::IPv6(a.add_offset(n)),
            Addr::Mac(a) => Addr::Mac(a.add_offset(n)),
            Addr::Number(x) => Addr::Number(x.add_offset(n)),
        }
    }

    fn sub_offset(&self, n: u128) -> (r: Self) {
        match self {
            Addr::IPv4(a) => Addr::IPv4(a.sub_offset(n)),
            Addr::IPv6(a) => Addr::IPv6(a.sub_offset(n)),
            Addr::Mac(a) => Addr::Mac(a.sub_offset(n)),
            Addr::Number(x) => Addr::Number(x.sub_offset(n)),
        }
    }

    fn le(&self, other: &Self) -> (r: bool) {
        magnitude(self) <= magnitude(other)
    }
}

impl IntoAddr for Addr {
    fn into_addr(self) -> (r: Addr) {
        self
    }
}

/// The magnitude of an address.
fn magnitude(a: &Addr) -> (r: u128)
    ensures
        r == a.value(),
{
    match a {
        Addr::IPv4(x) => x.to_u32() as u128,
        Addr::IPv6(x) => x.to_u128(),
        Addr::Mac(x) => x.to_u64() as u128,
        Addr::Number(x) => *x,
    }
}

/// Plain unsigned integers of 128 bits.
impl Rangeable for u128 {
    open spec fn family(&self) -> Family {
        Family::Number
    }

    open spec fn value(&self) -> nat {
        *self as nat
    }

    open spec fn wf(&self) -> bool {
        true
    }

    open spec fn with_value(&self, n: nat) -> Self {
        n as u128
    }

    proof fn lemma_value(&self) {
    }

    proof fn lemma_with_value(&self, n: nat) {
    }

    fn family_of(&self) -> (r: Family) {
        Family::Number
    }

    fn add_offset(&self, n: u128) -> (r: Self) {
        wrapping_add_u128(*self, n)
    }

    fn sub_offset(&self, n: u128) -> (r: Self) {
        wrapping_sub_u128(*self, n)
    }

    fn le(&self, other: &Self) -> (r: bool) {
        *self <= *other
    }
}

impl IntoAddr for u128 {
    fn into_addr(self) -> (r: Addr) {
        Addr::Number(self)
    }
}

impl AddrText for u128 {
    open spec fn text_family() -> Family {
        Family::Number
    }

    /// A number is written only as a decimal numeral.
    open spec fn parse_text(s: Seq<char>) -> Option<nat> {
        numeral_below(s, u128::MAX as nat + 1)
    }

    proof fn lemma_parse_text(s: Seq<char>) {
    }

    fn text_family_exec() -> (r: Family) {
        Family::Number
    }

    fn parse_chars(s: &Vec<char>, lo: usize, hi: usize) -> (r: Option<Self>) {
        parse_decimal(s, lo, hi)
    }
}

/// The magnitude that `s` denotes as an address of family `f`.
pub open spec fn family_parse(f: Family, s: Seq<char>) -> Option<nat> {
    match f {
        Family::Mac => mac_of_text(s),
        Family::IPv4 => ipv4_of_text(s),
        Family::IPv6 => ipv6_of_text(s),
        Family::Number => numeral_below(s, u128::MAX as nat + 1),
    }
}

/// In every family, reading the text that an address is displayed as gives
/// the address back; for IPv6 this holds of the full text too.
pub proof fn lemma_parse_display(f: Family, v: nat)
    requires
        v < f.modulus(),
    ensures
        family_parse(f, family_text(f, v)) == Some(v),
        f == Family::IPv6 ==> family_parse(f, ipv6_full_text(v)) == Some(v),
{
    match f {
        Family::Mac => lemma_mac_round_trip(v),
        Family::IPv4 => lemma_ipv4_round_trip(v),
        Family::IPv6 => {
            lemma_ipv6_round_trip(v);
            lemma_ipv6_full_round_trip(v);
        },
        Family::Number => lemma_number_round_trip(v),
    }
}

} // verus!
