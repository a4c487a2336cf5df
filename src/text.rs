//! Characters, digits and numerals: the pieces that every address notation
//! is made of.
use vstd::prelude::*;
use vstd::string::*;

verus! {

pub open spec fn is_digit(c: char) -> bool {
    '0' as u32 <= c as u32 && c as u32 <= '9' as u32
}

pub open spec fn is_lower_hex_letter(c: char) -> bool {
    'a' as u32 <= c as u32 && c as u32 <= 'f' as u32
}

pub open spec fn is_upper_hex_letter(c: char) -> bool {
    'A' as u32 <= c as u32 && c as u32 <= 'F' as u32
}

pub open spec fn is_hex_digit(c: char) -> bool {
    is_digit(c) || is_lower_hex_letter(c) || is_upper_hex_letter(c)
}

pub open spec fn digit_value(c: char) -> nat {
    (c as u32 - '0' as u32) as nat
}

pub open spec fn hex_digit_value(c: char) -> nat {
    if is_digit(c) {
        digit_value(c)
    } else if is_lower_hex_letter(c) {
        (c as u32 - 'a' as u32 + 10) as nat
    } else {
        (c as u32 - 'A' as u32 + 10) as nat
    }
}

/// The number that a string of decimal digits denotes.
pub open spec fn dec_value(s: Seq<char>) -> nat
    decreases s.len(),
{
    if s.len() == 0 {
        0
    } else {
        dec_value(s.drop_last()) * 10 + digit_value(s.last())
    }
}

/// The number that a string of hexadecimal digits denotes.
pub open spec fn hex_value(s: Seq<char>) -> nat
    decreases s.len(),
{
    if s.len() == 0 {
        0
    } else {
        hex_value(s.drop_last()) * 16 + hex_digit_value(s.last())
    }
}

/// A non-empty string of decimal digits.
pub open spec fn is_numeral(s: Seq<char>) -> bool {
    s.len() > 0 && forall|i: int| 0 <= i < s.len() ==> is_digit(#[trigger] s[i])
}

/// A non-empty string of hexadecimal digits.
pub open spec fn is_hex_numeral(s: Seq<char>) -> bool {
    s.len() > 0 && forall|i: int| 0 <= i < s.len() ==> is_hex_digit(#[trigger] s[i])
}

/// The value of a decimal numeral that is below `bound`, if `s` is one.
pub open spec fn numeral_below(s: Seq<char>, bound: nat) -> Option<nat> {
    if is_numeral(s) && dec_value(s) < bound {
        Some(dec_value(s))
    } else {
        None
    }
}

pub open spec fn digit_char(d: nat) -> char {
    ((48 + d) as u8) as char
}

/// The lowercase hexadecimal digit for `d < 16`.
pub open spec fn hex_char(d: nat) -> char {
    if d < 10 {
        ((48 + d) as u8) as char
    } else {
        ((97 + d - 10) as u8) as char
    }
}

/// The decimal numeral of `n`, without leading zeros.
pub open spec fn dec_text(n: nat) -> Seq<char>
    decreases n,
{
    if n < 10 {
        seq![digit_char(n)]
    } else {
        dec_text(n / 10).push(digit_char(n % 10))
    }
}

/// The lowercase hexadecimal numeral of `n`, without leading zeros.
pub open spec fn hex_text(n: nat) -> Seq<char>
    decreases n,
{
    if n < 16 {
        seq![hex_char(n)]
    } else {
        hex_text(n / 16).push(hex_char(n % 16))
    }
}

/// The last `width` lowercase hexadecimal digits of `n`, zero-padded.
pub open spec fn hex_padded(n: nat, width: nat) -> Seq<char>
    decreases width,
{
    if width == 0 {
        Seq::empty()
    } else {
        hex_padded(n / 16, (width - 1) as nat).push(hex_char(n % 16))
    }
}

pub open spec fn pow16(width: nat) -> nat
    decreases width,
{
    if width == 0 {
        1
    } else {
        16 * pow16((width - 1) as nat)
    }
}

/// Relies on `String::push`: the character is appended at the end.
#[verifier::external_body]
pub(crate) fn push_char(s: &mut String, c: char)
    ensures
        final(s)@ == old(s)@.push(c),
{
    s.push(c)
}

pub fn push_str(s: &mut String, t: &str)
    ensures
        final(s)@ == old(s)@ + t@,
{
    s.append(t);
}

/// The characters of `s`, one per element.
pub fn chars_of(s: &str) -> (r: Vec<char>)
    ensures
        r@ == s@,
{
    let n = s.unicode_len();
    let mut v: Vec<char> = Vec::new();
    let mut i: usize = 0;
    while i < n
        invariant
            n == s@.len(),
            i <= n,
            v@ == s@.subrange(0, i as int),
        decreases n - i,
    {
        v.push(s.get_char(i));
        i += 1;
        assert(v@ =~= s@.subrange(0, i as int));
    }
    assert(v@ =~= s@);
    v
}

pub fn is_digit_exec(c: char) -> (r: bool)
    ensures
        r == is_digit(c),
{
    '0' <= c && c <= '9'
}

pub fn hex_digit_exec(c: char) -> (r: Option<u8>)
    ensures
        r == (if is_hex_digit(c) {
            Some(hex_digit_value(c) as u8)
        } else {
            None::<u8>
        }),
{
    let x = c as u32;
    if '0' as u32 <= x && x <= '9' as u32 {
        Some((x - '0' as u32) as u8)
    } else if 'a' as u32 <= x && x <= 'f' as u32 {
        Some((x - 'a' as u32 + 10) as u8)
    } else if 'A' as u32 <= x && x <= 'F' as u32 {
        Some((x - 'A' as u32 + 10) as u8)
    } else {
        None
    }
}

pub fn digit_char_exec(d: u8) -> (c: char)
    requires
        d < 10,
    ensures
        c == digit_char(d as nat),
{
    (48 + d) as char
}

pub fn hex_char_exec(d: u8) -> (c: char)
    requires
        d < 16,
    ensures
        c == hex_char(d as nat),
{
    if d < 10 {
        (48 + d) as char
    } else {
        (97 + d - 10) as char
    }
}

proof fn lemma_dec_prefix_le(s: Seq<char>, j: int)
    requires
        0 <= j <= s.len(),
    ensures
        dec_value(s.subrange(0, j)) <= dec_value(s),
    decreases s.len(),
{
    if j < s.len() {
        lemma_dec_prefix_le(s.drop_last(), j);
        assert(s.drop_last().subrange(0, j) =~= s.subrange(0, j));
    } else {
        assert(s.subrange(0, j) =~= s);
    }
}

/// The value of `s[lo..hi]` read as a decimal numeral, if it is one and the
/// value fits in `u128`.
pub fn parse_decimal(s: &Vec<char>, lo: usize, hi: usize) -> (r: Option<u128>)
    requires
        lo <= hi <= s@.len(),
    ensures
        r == (match numeral_below(s@.subrange(lo as int, hi as int), u128::MAX as nat + 1) {
            Some(v) => Some(v as u128),
            None => None::<u128>,
        }),
{
    let ghost t = s@.subrange(lo as int, hi as int);
    if lo == hi {
        return None;
    }
    let mut acc: u128 = 0;
    let mut i: usize = lo;
    while i < hi
        invariant
            lo <= i <= hi <= s@.len(),
            t == s@.subrange(lo as int, hi as int),
            acc as nat == dec_value(s@.subrange(lo as int, i as int)),
            forall|k: int| lo <= k < i ==> is_digit(#[trigger] s@[k]),
        decreases hi - i,
    {
        let c = s[i];
        let ghost pre = s@.subrange(lo as int, i as int + 1);
        assert(pre.drop_last() =~= s@.subrange(lo as int, i as int));
        if !is_digit_exec(c) {
            assert(!is_digit(t[i - lo]));
            return None;
        }
        let d = (c as u32 - '0' as u32) as u128;
        assert(dec_value(pre) == acc * 10 + d);
        proof {
            assert(pre =~= t.subrange(0, i - lo + 1));
            lemma_dec_prefix_le(t, i - lo + 1);
        }
        if acc > (u128::MAX - d) / 10 {
            assert(acc * 10 + d > u128::MAX) by (nonlinear_arith)
                requires
                    acc > (u128::MAX - d) / 10,
                    d <= 9,
            ;
            return None;
        }
        assert(acc * 10 + d <= u128::MAX) by (nonlinear_arith)
            requires
                acc <= (u128::MAX - d) / 10,
                d <= 9,
        ;
        acc = acc * 10 + d;
        i += 1;
    }
    assert(t =~= s@.subrange(lo as int, i as int));
    assert(is_numeral(t));
    Some(acc)
}

/// Appends the decimal numeral of `n`.
pub fn push_decimal(out: &mut String, n: u128)
    ensures
        final(out)@ == old(out)@ + dec_text(n as nat),
    decreases n,
{
    if n >= 10 {
        push_decimal(out, n / 10);
    }
    let c = digit_char_exec((n % 10) as u8);
    push_char(out, c);
    assert(final(out)@ =~= old(out)@ + dec_text(n as nat));
}

/// Appends the hexadecimal numeral of `n`.
pub fn push_hex(out: &mut String, n: u128)
    ensures
        final(out)@ == old(out)@ + hex_text(n as nat),
    decreases n,
{
    if n >= 16 {
        push_hex(out, n / 16);
    }
    let c = hex_char_exec((n % 16) as u8);
    push_char(out, c);
    proof {
        assert(final(out)@ =~= old(out)@ + hex_text(n as nat));
    }
}

/// Appends the last `width` hexadecimal digits of `n`.
pub fn push_hex_padded(out: &mut String, n: u128, width: u32)
    ensures
        final(out)@ == old(out)@ + hex_padded(n as nat, width as nat),
    decreases width,
{
    if width == 0 {
        assert(final(out)@ =~= old(out)@ + hex_padded(n as nat, width as nat));
        return;
    }
    push_hex_padded(out, n / 16, width - 1);
    let c = hex_char_exec((n % 16) as u8);
    push_char(out, c);
    proof {
        assert(final(out)@ =~= old(out)@ + hex_padded(n as nat, width as nat));
    }
}

pub proof fn lemma_dec_text(n: nat)
    ensures
        is_numeral(dec_text(n)),
        dec_value(dec_text(n)) == n,
        n > 0 ==> dec_text(n)[0] != '0',
        n < 10 ==> dec_text(n).len() == 1,
        n < 100 ==> dec_text(n).len() <= 2,
        n < 1000 ==> dec_text(n).len() <= 3,
    decreases n,
{
    if n < 10 {
        assert(dec_text(n).drop_last() =~= Seq::<char>::empty());
        assert(digit_value(digit_char(n)) == n);
        assert(dec_value(dec_text(n)) == dec_value(Seq::<char>::empty()) * 10 + digit_value(digit_char(n)));
    } else {
        lemma_dec_text(n / 10);
        let s = dec_text(n);
        assert(s.drop_last() =~= dec_text(n / 10));
        assert(digit_value(digit_char(n % 10)) == n % 10);
        assert(dec_value(s) == dec_value(dec_text(n / 10)) * 10 + digit_value(s.last()));
        assert((n / 10) * 10 + n % 10 == n);
        assert forall|i: int| 0 <= i < s.len() implies is_digit(#[trigger] s[i]) by {
            if i < s.len() - 1 {
                assert(s[i] == dec_text(n / 10)[i]);
            }
        }
        assert(s[0] == dec_text(n / 10)[0]);
    }
}

pub proof fn lemma_hex_text(n: nat)
    ensures
        is_hex_numeral(hex_text(n)),
        hex_value(hex_text(n)) == n,
        n < 16 ==> hex_text(n).len() == 1,
        n < 256 ==> hex_text(n).len() <= 2,
        n < 4096 ==> hex_text(n).len() <= 3,
        n < 65536 ==> hex_text(n).len() <= 4,
    decreases n,
{
    lemma_hex_char(n % 16);
    if n < 16 {
        assert(hex_text(n).drop_last() =~= Seq::<char>::empty());
        assert(hex_value(hex_text(n)) == hex_value(Seq::<char>::empty()) * 16 + hex_digit_value(hex_char(n)));
    } else {
        lemma_hex_text(n / 16);
        let s = hex_text(n);
        assert(s.drop_last() =~= hex_text(n / 16));
        assert(hex_value(s) == hex_value(hex_text(n / 16)) * 16 + hex_digit_value(hex_char(n % 16)));
        assert forall|i: int| 0 <= i < s.len() implies is_hex_digit(#[trigger] s[i]) by {
            if i < s.len() - 1 {
                assert(s[i] == hex_text(n / 16)[i]);
            }
        }
    }
}

pub proof fn lemma_hex_padded(n: nat, width: nat)
    ensures
        hex_padded(n, width).len() == width,
        forall|i: int| 0 <= i < width ==> is_hex_digit(#[trigger] hex_padded(n, width)[i]),
        hex_value(hex_padded(n, width)) == n % pow16(width),
    decreases width,
{
    if width > 0 {
        let w = (width - 1) as nat;
        lemma_hex_padded(n / 16, w);
        let s = hex_padded(n, width);
        assert(s.drop_last() =~= hex_padded(n / 16, w));
        assert forall|i: int| 0 <= i < width implies is_hex_digit(#[trigger] s[i]) by {
            if i < width - 1 {
                assert(s[i] == hex_padded(n / 16, w)[i]);
            }
        }
        lemma_hex_char(n % 16);
        let p = pow16(w);
        assert(p > 0) by {
            lemma_pow16_positive(w);
        }
        assert((n / 16) % p * 16 + n % 16 == n % (16 * p)) by {
            vstd::arithmetic::div_mod::lemma_breakdown(n as int, 16, p as int);
        }
    }
}

pub proof fn lemma_hex_char(d: nat)
    requires
        d < 16,
    ensures
        is_hex_digit(hex_char(d)),
        hex_digit_value(hex_char(d)) == d,
        hex_char(d) != ':',
        hex_char(d) != '.',
{
}

proof fn lemma_pow16_positive(w: nat)
    ensures
        pow16(w) > 0,
    decreases w,
{
    if w > 0 {
        lemma_pow16_positive((w - 1) as nat);
    }
}

/// The pieces of `s` between occurrences of `sep`, as `str::split` gives them.
pub open spec fn split(s: Seq<char>, sep: char) -> Seq<Seq<char>>
    decreases s.len(),
{
    if s.len() == 0 {
        seq![Seq::empty()]
    } else {
        let r = split(s.drop_last(), sep);
        if s.last() == sep {
            r.push(Seq::empty())
        } else {
            r.update(r.len() - 1, r.last().push(s.last()))
        }
    }
}

pub proof fn lemma_split_len(s: Seq<char>, sep: char)
    ensures
        split(s, sep).len() >= 1,
    decreases s.len(),
{
    if s.len() > 0 {
        lemma_split_len(s.drop_last(), sep);
    }
}

/// A piece of `s` that holds no `sep` is the whole of `s`.
pub proof fn lemma_split_none(s: Seq<char>, sep: char)
    requires
        forall|i: int| 0 <= i < s.len() ==> s[i] != sep,
    ensures
        split(s, sep) == seq![s],
    decreases s.len(),
{
    if s.len() > 0 {
        lemma_split_none(s.drop_last(), sep);
        assert(s.drop_last().push(s.last()) =~= s);
        assert(split(s, sep) =~= seq![s]);
    } else {
        assert(s =~= Seq::<char>::empty());
        assert(split(s, sep) =~= seq![s]);
    }
}

/// Where the pieces of `s[lo..hi]` between occurrences of `sep` start and end.
pub fn split_bounds(s: &Vec<char>, lo: usize, hi: usize, sep: char) -> (r: Vec<(usize, usize)>)
    requires
        lo <= hi <= s@.len(),
    ensures
        r@.len() == split(s@.subrange(lo as int, hi as int), sep).len(),
        forall|j: int|
            0 <= j < r@.len() ==> lo <= (#[trigger] r@[j]).0 <= r@[j].1 <= hi && s@.subrange(
                r@[j].0 as int,
                r@[j].1 as int,
            ) == split(s@.subrange(lo as int, hi as int), sep)[j],
{
    let mut pieces: Vec<(usize, usize)> = Vec::new();
    let mut start: usize = lo;
    let mut i: usize = lo;
    assert(s@.subrange(lo as int, lo as int) =~= Seq::<char>::empty());
    while i < hi
        invariant
            lo <= start <= i <= hi <= s@.len(),
            split(s@.subrange(lo as int, i as int), sep).len() == pieces@.len() + 1,
            split(s@.subrange(lo as int, i as int), sep).last() == s@.subrange(
                start as int,
                i as int,
            ),
            forall|j: int|
                0 <= j < pieces@.len() ==> lo <= (#[trigger] pieces@[j]).0 <= pieces@[j].1 <= i
                    && s@.subrange(pieces@[j].0 as int, pieces@[j].1 as int) == split(
                    s@.subrange(lo as int, i as int),
                    sep,
                )[j],
        decreases hi - i,
    {
        let ghost pre = s@.subrange(lo as int, i as int);
        let ghost next = s@.subrange(lo as int, i as int + 1);
        assert(next.drop_last() =~= pre);
        assert(next.last() == s@[i as int]);
        if s[i] == sep {
            pieces.push((start, i));
            start = i + 1;
            assert(s@.subrange(start as int, i as int + 1) =~= Seq::<char>::empty());
        } else {
            assert(s@.subrange(start as int, i as int + 1) =~= s@.subrange(
                start as int,
                i as int,
            ).push(s@[i as int]));
        }
        i += 1;
    }
    pieces.push((start, hi));
    pieces
}

/// Where `c` first occurs in `s`.
pub open spec fn find(s: Seq<char>, c: char) -> Option<nat>
    decreases s.len(),
{
    if s.len() == 0 {
        None
    } else if s[0] == c {
        Some(0)
    } else {
        match find(s.drop_first(), c) {
            Some(i) => Some(i + 1),
            None => None,
        }
    }
}

pub proof fn lemma_find(s: Seq<char>, c: char)
    ensures
        match find(s, c) {
            Some(i) => i < s.len() && s[i as int] == c && forall|j: int| 0 <= j < i ==> s[j] != c,
            None => forall|j: int| 0 <= j < s.len() ==> s[j] != c,
        },
    decreases s.len(),
{
    if s.len() > 0 {
        lemma_find(s.drop_first(), c);
        if s[0] != c {
            assert forall|j: int| 1 <= j < s.len() implies s[j] == s.drop_first()[j - 1] by {}
        }
    }
}

/// Where `c` first occurs in `s[lo..hi]`, counted from `lo`.
pub fn find_char(s: &Vec<char>, lo: usize, hi: usize, c: char) -> (r: Option<usize>)
    requires
        lo <= hi <= s@.len(),
    ensures
        r == (match find(s@.subrange(lo as int, hi as int), c) {
            Some(i) => Some((lo + i) as usize),
            None => None::<usize>,
        }),
{
    let ghost t = s@.subrange(lo as int, hi as int);
    proof {
        lemma_find(t, c);
    }
    let mut i: usize = lo;
    while i < hi
        invariant
            lo <= i <= hi <= s@.len(),
            t == s@.subrange(lo as int, hi as int),
            forall|j: int| lo <= j < i ==> s@[j] != c,
            match find(t, c) {
                Some(k) => k < t.len() && t[k as int] == c && forall|j: int| 0 <= j < k ==> t[j] != c,
                None => forall|j: int| 0 <= j < t.len() ==> t[j] != c,
            },
        decreases hi - i,
    {
        if s[i] == c {
            proof {
                assert(t[i - lo] == c);
                if let Some(k) = find(t, c) {
                    assert(t[k as int] == s@[lo + k]);
                    assert(k == i - lo);
                }
            }
            return Some(i);
        }
        i += 1;
    }
    proof {
        if let Some(k) = find(t, c) {
            assert(t[k as int] == s@[lo + k]);
        }
    }
    None
}

/// Whether `s[lo..hi]` is a decimal numeral.
pub fn is_numeral_exec(s: &Vec<char>, lo: usize, hi: usize) -> (r: bool)
    requires
        lo <= hi <= s@.len(),
    ensures
        r == is_numeral(s@.subrange(lo as int, hi as int)),
{
    let ghost t = s@.subrange(lo as int, hi as int);
    if lo == hi {
        return false;
    }
    let mut i: usize = lo;
    while i < hi
        invariant
            lo <= i <= hi <= s@.len(),
            t == s@.subrange(lo as int, hi as int),
            forall|j: int| lo <= j < i ==> is_digit(s@[j]),
        decreases hi - i,
    {
        if !is_digit_exec(s[i]) {
            assert(!is_digit(t[i - lo]));
            return false;
        }
        i += 1;
    }
    assert forall|j: int| 0 <= j < t.len() implies is_digit(#[trigger] t[j]) by {
        assert(t[j] == s@[lo + j]);
    }
    true
}

pub proof fn lemma_hex_pair(q: Seq<char>)
    requires
        q.len() == 2,
        is_hex_digit(q[0]),
        is_hex_digit(q[1]),
    ensures
        hex_value(q) == hex_digit_value(q[0]) * 16 + hex_digit_value(q[1]),
        hex_value(q) < 256,
{
    let d = q.drop_last();
    assert(d.drop_last() =~= Seq::<char>::empty());
    assert(d.last() == q[0]);
    assert(hex_value(d.drop_last()) == 0);
    assert(hex_value(d) == hex_digit_value(q[0]));
    assert(hex_value(q) == hex_value(d) * 16 + hex_digit_value(q[1]));
    assert(hex_digit_value(q[0]) < 16);
    assert(hex_digit_value(q[1]) < 16);
}

/// Splitting text joined at a separator splits each side.
pub proof fn lemma_split_join(a: Seq<char>, sep: char, b: Seq<char>)
    ensures
        split(a + seq![sep] + b, sep) == split(a, sep) + split(b, sep),
    decreases b.len(),
{
    lemma_split_len(a, sep);
    lemma_split_len(b, sep);
    let s = a + seq![sep] + b;
    if b.len() == 0 {
        assert(s.drop_last() =~= a);
        assert(split(b, sep) =~= seq![Seq::<char>::empty()]);
        assert(split(s, sep) =~= split(a, sep) + split(b, sep));
    } else {
        let b0 = b.drop_last();
        lemma_split_join(a, sep, b0);
        lemma_split_len(b0, sep);
        assert(s.drop_last() =~= a + seq![sep] + b0);
        assert(s.last() == b.last());
        assert(split(s, sep) =~= split(a, sep) + split(b, sep));
    }
}

/// A hexadecimal numeral holds no separator.
pub proof fn lemma_hex_padded_split(n: nat, width: nat, sep: char)
    requires
        !is_hex_digit(sep),
    ensures
        split(hex_padded(n, width), sep) == seq![hex_padded(n, width)],
{
    lemma_hex_padded(n, width);
    lemma_split_none(hex_padded(n, width), sep);
}

/// A decimal numeral holds no separator.
pub proof fn lemma_dec_text_split(n: nat, sep: char)
    requires
        !is_digit(sep),
    ensures
        split(dec_text(n), sep) == seq![dec_text(n)],
{
    lemma_dec_text(n);
    lemma_split_none(dec_text(n), sep);
}

/// The last two base-`b` digits of `v / p`: `(v / (p * b)) * b + (v / p) % b`
/// is `v / p`.
pub proof fn lemma_next_digit(v: nat, p: nat, b: nat)
    requires
        p > 0,
        b > 0,
    ensures
        (v / (p * b)) * b + (v / p) % b == v / p,
{
    let x = v / p;
    vstd::arithmetic::div_mod::lemma_div_denominator(v as int, p as int, b as int);
    vstd::arithmetic::div_mod::lemma_fundamental_div_mod(x as int, b as int);
    assert(v / (p * b) == x / b);
    assert((x / b) * b == b * (x / b)) by (nonlinear_arith);
}

/// Parsing the decimal numeral of `n` gives `n` back.
pub proof fn lemma_number_round_trip(n: nat)
    requires
        n <= u128::MAX,
    ensures
        numeral_below(dec_text(n), u128::MAX as nat + 1) == Some(n),
{
    lemma_dec_text(n);
}

} // verus!
