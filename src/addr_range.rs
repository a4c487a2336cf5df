//! Address families, ranges of addresses and the sequences they produce.
use vstd::prelude::*;
use crate::addr::Addr;
use crate::bundled_iter::ResettableIterator;
use crate::text::{chars_of, find, find_char, lemma_find, numeral_below, parse_decimal};

verus! {

/// The four kinds of value that a range can hold.
#[derive(Debug, PartialEq, Eq, Structural, Clone, Copy)]
pub enum Family {
    Mac,
    IPv4,
    IPv6,
    Number,
}

impl Family {
    /// How many values the family has: two to the power of its bit width.
    pub open spec fn modulus(self) -> nat {
        match self {
            Family::Mac => 0x1_0000_0000_0000,
            Family::IPv4 => 0x1_0000_0000,
            _ => u128::MAX as nat + 1,
        }
    }

    /// Offsets in range literals of this family are read as integers below
    /// this bound.
    pub open spec fn offset_bound(self) -> nat {
        match self {
            Family::Mac => u64::MAX as nat + 1,
            Family::IPv4 => 0x1_0000_0000,
            _ => u128::MAX as nat + 1,
        }
    }

    /// Whether `n` may stand as an offset in a range literal of the family.
    pub fn offset_fits(&self, n: u128) -> (r: bool)
        ensures
            r == (n < self.offset_bound()),
    {
        match self {
            Family::Mac => n <= u64::MAX as u128,
            Family::IPv4 => n <= u32::MAX as u128,
            _ => true,
        }
    }

    /// The largest value of the family.
    pub fn max_value(&self) -> (r: u128)
        ensures
            r == self.modulus() - 1,
    {
        match self {
            Family::Mac => 0xffff_ffff_ffff,
            Family::IPv4 => 0xffff_ffff,
            _ => u128::MAX,
        }
    }
}

/// A value with a magnitude in its family, and modular arithmetic on it.
pub trait Rangeable: Sized + Copy {
    spec fn family(&self) -> Family;

    spec fn value(&self) -> nat;

    /// The value is a valid member of its family.
    spec fn wf(&self) -> bool;

    /// The value of the same family with magnitude `n`.
    spec fn with_value(&self, n: nat) -> Self;

    proof fn lemma_value(&self)
        requires
            self.wf(),
        ensures
            self.value() < self.family().modulus(),
    ;

    proof fn lemma_with_value(&self, n: nat)
        requires
            n < self.family().modulus(),
        ensures
            self.with_value(n).wf(),
            self.with_value(n).value() == n,
            self.with_value(n).family() == self.family(),
    ;

    fn family_of(&self) -> (r: Family)
        ensures
            r == self.family(),
    ;

    /// `(value + n) mod 2^W`.
    fn add_offset(&self, n: u128) -> (r: Self)
        requires
            self.wf(),
        ensures
            r == self.with_value(((self.value() + n) % (self.family().modulus() as int)) as nat),
    ;

    /// `(value - n) mod 2^W`.
    fn sub_offset(&self, n: u128) -> (r: Self)
        requires
            self.wf(),
        ensures
            r == self.with_value(((self.value() - n) % (self.family().modulus() as int)) as nat),
    ;

    fn le(&self, other: &Self) -> (r: bool)
        ensures
            r == (self.value() <= other.value()),
    ;
}

/// A value that converts to an `Addr` of its family.
pub trait IntoAddr: Rangeable {
    fn into_addr(self) -> (r: Addr)
        requires
            self.wf(),
        ensures
            r.wf(),
            r.family() == self.family(),
            r.value() == self.value(),
    ;
}

/// A family whose values can be read from text.
pub trait AddrText: Rangeable {
    /// The family of every value read from text.
    spec fn text_family() -> Family;

    /// The magnitude that `s` denotes, if it is an address of the family.
    spec fn parse_text(s: Seq<char>) -> Option<nat>;

    proof fn lemma_parse_text(s: Seq<char>)
        ensures
            Self::parse_text(s) is Some ==> Self::parse_text(s)->0 < Self::text_family().modulus(),
    ;

    fn text_family_exec() -> (r: Family)
        ensures
            r == Self::text_family(),
    ;

    fn parse_chars(s: &Vec<char>, lo: usize, hi: usize) -> (r: Option<Self>)
        requires
            lo <= hi <= s@.len(),
        ensures
            match Self::parse_text(s@.subrange(lo as int, hi as int)) {
                Some(v) => r is Some && r->0.wf() && r->0.family() == Self::text_family()
                    && r->0.value() == v,
                None => r is None,
            },
    ;
}

/// The end points `(start, end, overflow)` of the range that `s` denotes, as
/// magnitudes of the family of `T`.
pub open spec fn range_text<T: AddrText>(s: Seq<char>) -> Option<(nat, nat, bool)> {
    let m = T::text_family().modulus() as int;
    let bound = T::text_family().offset_bound();
    match find(s, '+') {
        Some(i) => {
            let rest = s.subrange(i + 1 as int, s.len() as int);
            match T::parse_text(s.subrange(0, i as int)) {
                Some(a) => if rest.len() > 0 && rest[0] == '-' {
                    match numeral_below(rest.subrange(1, rest.len() as int), bound) {
                        Some(n) => {
                            let e = ((a - n) % m) as nat;
                            Some((a, e, e > a))
                        },
                        None => None,
                    }
                } else {
                    match numeral_below(rest, bound) {
                        Some(n) => {
                            let e = ((a + n) as int % m) as nat;
                            Some((a, e, e < a))
                        },
                        None => None,
                    }
                },
                None => None,
            }
        },
        None => match find(s, '-') {
            Some(i) => match (
                T::parse_text(s.subrange(0, i as int)),
                T::parse_text(s.subrange(i + 1 as int, s.len() as int)),
            ) {
                (Some(a), Some(b)) => Some((a, b, false)),
                _ => None,
            },
            None => match T::parse_text(s) {
                Some(a) => Some((a, a, false)),
                None => None,
            },
        },
    }
}

/// Whether a range from `s` to `e` runs upwards: a wrapping range runs
/// upwards when it starts above its end.
pub open spec fn range_ascending(s: nat, e: nat, overflow: bool) -> bool {
    if overflow {
        s >= e
    } else {
        s <= e
    }
}

/// How many values a range from `s` to `e` holds in a family of `m` values.
pub open spec fn range_cardinality(m: nat, s: nat, e: nat, overflow: bool) -> nat {
    let d = if s <= e {
        e - s
    } else {
        s - e
    };
    if overflow {
        (m - d + 1) as nat
    } else {
        (d + 1) as nat
    }
}

/// The `k`-th value of a range from `s` to `e` in a family of `m` values.
pub open spec fn range_nth(m: nat, s: nat, e: nat, overflow: bool, k: nat) -> nat {
    if range_ascending(s, e, overflow) {
        ((s + k) as int % (m as int)) as nat
    } else {
        ((s - k) % (m as int)) as nat
    }
}

/// An inclusive range of addresses of one family, which may wrap around the
/// end of the family.
#[derive(Debug, PartialEq)]
pub struct AddrRange<T> {
    start: T,
    end: T,
    overflow: bool,
}

impl<T: Rangeable> AddrRange<T> {
    pub closed spec fn spec_start(&self) -> T {
        self.start
    }

    pub closed spec fn spec_end(&self) -> T {
        self.end
    }

    pub closed spec fn spec_overflow(&self) -> bool {
        self.overflow
    }

    pub open spec fn modulus(&self) -> nat {
        self.spec_start().family().modulus()
    }

    pub open spec fn wf(&self) -> bool {
        &&& self.spec_start().wf()
        &&& self.spec_end().wf()
        &&& self.spec_start().family() == self.spec_end().family()
        &&& self.spec_overflow() ==> self.spec_start().value() != self.spec_end().value()
    }

    pub open spec fn spec_is_ascending(&self) -> bool {
        range_ascending(self.spec_start().value(), self.spec_end().value(), self.spec_overflow())
    }

    pub open spec fn spec_within(&self, v: nat) -> bool {
        let s = self.spec_start().value();
        let e = self.spec_end().value();
        if self.spec_overflow() {
            if s <= e {
                v <= s || v >= e
            } else {
                v >= s || v <= e
            }
        } else if s <= e {
            s <= v && v <= e
        } else {
            e <= v && v <= s
        }
    }

    /// How many values the range holds.
    pub open spec fn cardinality(&self) -> nat {
        range_cardinality(
            self.modulus(),
            self.spec_start().value(),
            self.spec_end().value(),
            self.spec_overflow(),
        )
    }

    /// The magnitude of the `k`-th value of the range's sequence.
    pub open spec fn nth_value(&self, k: nat) -> nat {
        range_nth(
            self.modulus(),
            self.spec_start().value(),
            self.spec_end().value(),
            self.spec_overflow(),
            k,
        )
    }

    /// The values of the range, in the order in which its sequence yields
    /// them.
    pub open spec fn values(&self) -> Seq<T> {
        Seq::new(self.cardinality(), |k: int| self.spec_start().with_value(self.nth_value(k as nat)))
    }

    /// A range from `start` to `end` that does not wrap.
    pub fn new(start: T, end: T) -> (r: Self)
        requires
            start.wf(),
            end.wf(),
            start.family() == end.family(),
        ensures
            r.wf(),
            r.spec_start() == start,
            r.spec_end() == end,
            !r.spec_overflow(),
    {
        AddrRange { start, end, overflow: false }
    }

    pub fn is_ascending(&self) -> (r: bool)
        ensures
            r == self.spec_is_ascending(),
    {
        if self.overflow {
            self.end.le(&self.start)
        } else {
            self.start.le(&self.end)
        }
    }

    pub fn within(&self, value: &T) -> (r: bool)
        ensures
            r == self.spec_within(value.value()),
    {
        if self.overflow {
            if self.start.le(&self.end) {
                value.le(&self.start) || self.end.le(value)
            } else {
                self.start.le(value) || value.le(&self.end)
            }
        } else if self.start.le(&self.end) {
            self.start.le(value) && value.le(&self.end)
        } else {
            value.le(&self.start) && self.end.le(value)
        }
    }

    /// The restartable sequence of the range's values.
    pub fn into_iter(self) -> (r: AddrRangeIter<T>)
        requires
            self.wf(),
        ensures
            r.inv(),
            r.range() == self,
            r.position() == 0,
    {
        AddrRangeIter { range: self, offset: 0, exhausted: false }
    }
}

impl<T: IntoAddr> AddrRange<T> {
    /// The same range, with its end points as `Addr` values.
    pub fn into_range(self) -> (r: AddrRange<Addr>)
        requires
            self.wf(),
        ensures
            r.wf(),
            r.spec_start().family() == self.spec_start().family(),
            r.spec_start().value() == self.spec_start().value(),
            r.spec_end().value() == self.spec_end().value(),
            r.spec_overflow() == self.spec_overflow(),
            r.cardinality() == self.cardinality(),
    {
        AddrRange { start: self.start.into_addr(), end: self.end.into_addr(), overflow: self.overflow }
    }
}

impl<T: AddrText> AddrRange<T> {
    /// Reads a range literal: `A`, `A-B`, `A+N` or `A+-N`, where `A` and `B`
    /// are addresses and `N` is a decimal offset. A literal with a `+` is
    /// split at its first `+`; one without, at its first `-`.
    #[verifier::rlimit(40)]
    pub fn from_str(value: &str) -> (r: Result<AddrRange<T>, ()>)
        ensures
            match range_text::<T>(value@) {
                Some((a, b, o)) => r is Ok && r->Ok_0.wf() && r->Ok_0.spec_start().family()
                    == T::text_family() && r->Ok_0.spec_start().value() == a
                    && r->Ok_0.spec_end().value() == b && r->Ok_0.spec_overflow() == o,
                None => r is Err,
            },
    {
        let s = chars_of(value);
        let n = s.len();
        proof {
            assert(s@.subrange(0, n as int) =~= value@);
            lemma_find(value@, '+');
            lemma_find(value@, '-');
        }
        let family = T::text_family_exec();
        match find_char(&s, 0, n, '+') {
            Some(i) => {
                let ghost rest = value@.subrange(i + 1, n as int);
                assert(s@.subrange(0, i as int) =~= value@.subrange(0, i as int));
                let start = match T::parse_chars(&s, 0, i) {
                    Some(a) => a,
                    None => {
                        return Err(());
                    },
                };
                if i + 1 < n && s[i + 1] == '-' {
                    assert(s@.subrange(i + 2, n as int) =~= rest.subrange(1, rest.len() as int));
                    let off = match parse_decimal(&s, i + 2, n) {
                        Some(x) => x,
                        None => {
                            return Err(());
                        },
                    };
                    if !family.offset_fits(off) {
                        return Err(());
                    }
                    let end = start.sub_offset(off);
                    proof {
                        start.lemma_value();
                        vstd::arithmetic::div_mod::lemma_mod_bound(
                            start.value() - off,
                            start.family().modulus() as int,
                        );
                        start.lemma_with_value(((start.value() - off) % (start.family().modulus() as int)) as nat);
                    }
                    let overflow = !end.le(&start);
                    Ok(AddrRange { start, end, overflow })
                } else {
                    assert(s@.subrange(i + 1, n as int) =~= rest);
                    let off = match parse_decimal(&s, i + 1, n) {
                        Some(x) => x,
                        None => {
                            return Err(());
                        },
                    };
                    if !family.offset_fits(off) {
                        return Err(());
                    }
                    let end = start.add_offset(off);
                    proof {
                        start.lemma_value();
                        vstd::arithmetic::div_mod::lemma_mod_bound(
                            start.value() + off,
                            start.family().modulus() as int,
                        );
                        start.lemma_with_value(((start.value() + off) % (start.family().modulus() as int)) as nat);
                    }
                    let overflow = !start.le(&end);
                    Ok(AddrRange { start, end, overflow })
                }
            },
            None => match find_char(&s, 0, n, '-') {
                Some(i) => {
                    assert(s@.subrange(0, i as int) =~= value@.subrange(0, i as int));
                    assert(s@.subrange(i + 1, n as int) =~= value@.subrange(i + 1, n as int));
                    let start = T::parse_chars(&s, 0, i);
                    let end = T::parse_chars(&s, i + 1, n);
                    match (start, end) {
                        (Some(a), Some(b)) => Ok(AddrRange::new(a, b)),
                        _ => Err(()),
                    }
                },
                None => match T::parse_chars(&s, 0, n) {
                    Some(a) => Ok(AddrRange::new(a, a)),
                    None => Err(()),
                },
            },
        }
    }
}

pub proof fn lemma_wrap(x: int, m: int)
    requires
        m > 0,
        -m <= x < 2 * m,
    ensures
        x % m == (if x < 0 {
            x + m
        } else if x < m {
            x
        } else {
            x - m
        }),
{
    if x < 0 {
        vstd::arithmetic::div_mod::lemma_fundamental_div_mod_converse(x, m, -1, x + m);
    } else if x < m {
        vstd::arithmetic::div_mod::lemma_fundamental_div_mod_converse(x, m, 0, x);
    } else {
        vstd::arithmetic::div_mod::lemma_fundamental_div_mod_converse(x, m, 1, x - m);
    }
}

/// The sequence of a range holds exactly its cardinality of values: the
/// `k`-th candidate passes the membership test for every `k` below the
/// cardinality, and fails it at the cardinality unless the range covers the
/// whole family.
pub proof fn lemma_cardinality<T: Rangeable>(r: AddrRange<T>)
    requires
        r.wf(),
    ensures
        1 <= r.cardinality() <= r.modulus(),
        forall|k: nat| k < r.cardinality() ==> r.spec_within(#[trigger] r.nth_value(k)),
        r.cardinality() < r.modulus() ==> !r.spec_within(r.nth_value(r.cardinality())),
        r.values().len() == r.cardinality(),
        forall|k: int|
            0 <= k < r.cardinality() ==> (#[trigger] r.values()[k]).value() == r.nth_value(
                k as nat,
            ) && r.values()[k].family() == r.spec_start().family() && r.values()[k].wf(),
{
    let s = r.spec_start().value() as int;
    let e = r.spec_end().value() as int;
    let m = r.modulus() as int;
    r.spec_start().lemma_value();
    r.spec_end().lemma_value();
    assert forall|k: nat| k <= r.cardinality() && k < m implies (r.spec_within(
        #[trigger] r.nth_value(k),
    ) <==> k < r.cardinality()) by {
        if r.spec_is_ascending() {
            lemma_wrap(s + k, m);
        } else {
            lemma_wrap(s - k, m);
        }
    }
    assert forall|k: int| 0 <= k < r.cardinality() implies (#[trigger] r.values()[k]).value()
        == r.nth_value(k as nat) && r.values()[k].family() == r.spec_start().family()
        && r.values()[k].wf() by {
        if r.spec_is_ascending() {
            lemma_wrap(s + k, m);
        } else {
            lemma_wrap(s - k, m);
        }
        r.spec_start().lemma_with_value(r.nth_value(k as nat));
    }
}

/// Ranges of one family, run side by side.
pub type AddrRanges<T> = crate::bundled_iter::IterBundle<AddrRangeIter<T>>;

/// The restartable sequence of a range's values.
pub struct AddrRangeIter<T> {
    range: AddrRange<T>,
    offset: u128,
    exhausted: bool,
}

impl<T: Rangeable> AddrRangeIter<T> {
    pub closed spec fn range(&self) -> AddrRange<T> {
        self.range
    }
}

impl<T: Rangeable> ResettableIterator for AddrRangeIter<T> {
    type Item = T;

    /// The values of the range, in order.
    open spec fn cycle(&self) -> Seq<T> {
        self.range().values()
    }

    /// How many values the sequence has yielded since it was started.
    closed spec fn position(&self) -> nat {
        if self.exhausted {
            self.range.cardinality()
        } else {
            self.offset as nat
        }
    }

    closed spec fn inv(&self) -> bool {
        &&& self.range.wf()
        &&& !self.exhausted ==> self.offset < self.range.cardinality() || (self.offset
            == self.range.cardinality() && self.offset < self.range.modulus())
    }

    /// The next value of the range, if any is left. The candidate at the
    /// current offset from the start, upwards or downwards as the range runs,
    /// is yielded while it lies in the range; once the offset has passed
    /// every value of the family the sequence ends too, so that a range that
    /// covers the whole family yields each value once.
    fn next(&mut self) -> (r: Option<T>) {
        proof {
            lemma_cardinality(self.range);
        }
        if self.exhausted {
            return None;
        }
        let candidate = if self.range.is_ascending() {
            self.range.start.add_offset(self.offset)
        } else {
            self.range.start.sub_offset(self.offset)
        };
        proof {
            let k = self.offset as nat;
            self.range.spec_start().lemma_value();
            if self.range.spec_is_ascending() {
                lemma_wrap(self.range.spec_start().value() + k as int, self.range.modulus() as int);
            } else {
                lemma_wrap(self.range.spec_start().value() - k, self.range.modulus() as int);
            }
            self.range.spec_start().lemma_with_value(self.range.nth_value(k));
            if k < self.range.cardinality() {
                assert(self.range.values()[k as int] == candidate);
            }
        }
        if self.range.within(&candidate) {
            let last = self.range.start.family_of().max_value();
            if self.offset == last {
                self.exhausted = true;
            } else {
                self.offset = self.offset + 1;
            }
            Some(candidate)
        } else {
            self.exhausted = true;
            None
        }
    }

    /// Starts the sequence again from the start of the range.
    fn reset(&mut self) {
        proof {
            lemma_cardinality(self.range);
        }
        self.offset = 0;
        self.exhausted = false;
    }
}

} // verus!
