//! Rendering a template against range arguments, one line per row.
use vstd::prelude::*;
use crate::addr::{family_text, Addr};
use crate::addr_range::{
    lemma_cardinality, range_cardinality, range_nth, range_text, AddrRange, AddrRangeIter, Family,
    Rangeable,
};
use crate::bundled_iter::{
    all_nonempty, max_len, row_count, BundledIter, IterBundle, ResettableIterator,
};
use crate::format::{
    parse_format, template_tokens, token_views, ErrorKind, Format, FormatError, Kind, Token,
};
use crate::ipv4addr::IPv4Addr;
use crate::ipv6addr::{ipv6_full_text, IPv6Addr};
use crate::macaddr::MacAddr;
use crate::text::{push_char, push_str};

verus! {

/// The family whose ranges a placeholder of kind `k` takes.
pub open spec fn kind_family(k: Kind) -> Family {
    match k {
        Kind::MacAddr => Family::Mac,
        Kind::IPv4Addr => Family::IPv4,
        Kind::IPv6Addr => Family::IPv6,
        Kind::IPv6FullAddr => Family::IPv6,
        Kind::Number => Family::Number,
    }
}

/// The range `(start, end, overflow)` that `s` denotes for a placeholder of
/// kind `k`.
#[verifier::opaque]
pub open spec fn kind_range(k: Kind, s: Seq<char>) -> Option<(nat, nat, bool)> {
    match k {
        Kind::MacAddr => range_text::<MacAddr>(s),
        Kind::IPv4Addr => range_text::<IPv4Addr>(s),
        Kind::IPv6Addr => range_text::<IPv6Addr>(s),
        Kind::IPv6FullAddr => range_text::<IPv6Addr>(s),
        Kind::Number => range_text::<u128>(s),
    }
}

/// The placeholders of a template, in order.
pub open spec fn slots(tokens: Seq<Token>) -> Seq<Kind>
    decreases tokens.len(),
{
    if tokens.len() == 0 {
        Seq::empty()
    } else {
        let r = slots(tokens.drop_last());
        match tokens.last() {
            Token::Slot(k) => r.push(k),
            Token::Text(_) => r,
        }
    }
}

/// The first error in binding the placeholders `kinds[j..]` to the arguments
/// `args[j..]`, one each in order; then an argument left over is an error.
pub open spec fn bind_error(kinds: Seq<Kind>, args: Seq<Seq<char>>, j: nat) -> Option<ErrorKind>
    decreases kinds.len() - j,
{
    if j >= kinds.len() {
        if kinds.len() < args.len() {
            Some(ErrorKind::UnexpectedArgument)
        } else {
            None
        }
    } else if j >= args.len() {
        Some(ErrorKind::InsufficientArguments)
    } else if kind_range(kinds[j as int], args[j as int]) is None {
        Some(ErrorKind::InvalidAddress(kinds[j as int]))
    } else {
        bind_error(kinds, args, j + 1)
    }
}

/// How many values the range `b` of a placeholder of kind `k` holds.
pub open spec fn slot_count(k: Kind, b: (nat, nat, bool)) -> nat {
    range_cardinality(kind_family(k).modulus(), b.0, b.1, b.2)
}

/// The text of the value that the range `b` gives in row `t`.
pub open spec fn slot_text(k: Kind, b: (nat, nat, bool), t: nat) -> Seq<char> {
    let f = kind_family(k);
    let v = range_nth(f.modulus(), b.0, b.1, b.2, t % slot_count(k, b));
    if k == Kind::IPv6FullAddr {
        ipv6_full_text(v)
    } else {
        family_text(f, v)
    }
}

/// Row `t` of the template: literal text as it stands, each placeholder
/// replaced by the value of its range in that row.
pub open spec fn render_row(tokens: Seq<Token>, binds: Seq<(nat, nat, bool)>, t: nat) -> Seq<char>
    decreases tokens.len(),
{
    if tokens.len() == 0 {
        Seq::empty()
    } else {
        let prefix = tokens.drop_last();
        render_row(prefix, binds, t) + match tokens.last() {
            Token::Text(x) => x,
            Token::Slot(k) => slot_text(k, binds[slots(prefix).len() as int], t),
        }
    }
}

pub open spec fn max_of(s: Seq<nat>) -> nat
    decreases s.len(),
{
    if s.len() == 0 {
        0
    } else if s.last() > max_of(s.drop_last()) {
        s.last()
    } else {
        max_of(s.drop_last())
    }
}

pub open spec fn arg_views(args: Seq<String>) -> Seq<Seq<char>> {
    Seq::new(args.len(), |i: int| args[i]@)
}

/// The ranges that the placeholders are bound to.
pub open spec fn bindings(kinds: Seq<Kind>, args: Seq<Seq<char>>) -> Seq<(nat, nat, bool)> {
    Seq::new(kinds.len(), |j: int| kind_range(kinds[j], args[j])->0)
}

/// The lines that rendering `template` against `args` writes, or the error
/// that stops it before any line. Without placeholders the template gives
/// one line; otherwise there is a line for each row, as many as the largest
/// range has values.
pub open spec fn rendered(template: Seq<char>, args: Seq<Seq<char>>) -> Result<
    Seq<Seq<char>>,
    ErrorKind,
> {
    match template_tokens(template) {
        Err(e) => Err(e),
        Ok(tokens) => {
            let kinds = slots(tokens);
            match bind_error(kinds, args, 0) {
                Some(e) => Err(e),
                None => {
                    let binds = bindings(kinds, args);
                    if kinds.len() == 0 {
                        Ok(seq![render_row(tokens, binds, 0).push('\n')])
                    } else {
                        let n = max_of(Seq::new(kinds.len(), |j: int| slot_count(kinds[j], binds[j])));
                        Ok(Seq::new(n, |t: int| render_row(tokens, binds, t as nat).push('\n')))
                    }
                },
            }
        },
    }
}

proof fn lemma_slots_prefix(tokens: Seq<Token>, i: int)
    requires
        0 <= i <= tokens.len(),
    ensures
        slots(tokens.subrange(0, i)).len() <= slots(tokens).len(),
        slots(tokens.subrange(0, i)) == slots(tokens).subrange(0, slots(tokens.subrange(0, i)).len() as int),
    decreases tokens.len() - i,
{
    if i < tokens.len() {
        lemma_slots_prefix(tokens, i + 1);
        let a = tokens.subrange(0, i + 1);
        assert(a.drop_last() =~= tokens.subrange(0, i));
        assert(slots(tokens.subrange(0, i)) =~= slots(a).subrange(
            0,
            slots(tokens.subrange(0, i)).len() as int,
        ));
        assert(slots(tokens.subrange(0, i)) =~= slots(tokens).subrange(
            0,
            slots(tokens.subrange(0, i)).len() as int,
        ));
    } else {
        assert(tokens.subrange(0, i) =~= tokens);
        assert(slots(tokens) =~= slots(tokens).subrange(0, slots(tokens).len() as int));
    }
}

proof fn lemma_bind_error_steps(kinds: Seq<Kind>, args: Seq<Seq<char>>, j: nat)
    requires
        j <= kinds.len(),
        j <= args.len(),
        forall|i: int| 0 <= i < j ==> (#[trigger] kind_range(kinds[i], args[i])) is Some,
    ensures
        bind_error(kinds, args, 0) == bind_error(kinds, args, j),
    decreases j,
{
    if j > 0 {
        lemma_bind_error_steps(kinds, args, (j - 1) as nat);
        assert(kind_range(kinds[j - 1], args[j - 1]) is Some);
    }
}

proof fn lemma_max_of(cycles: Seq<Seq<Addr>>, counts: Seq<nat>)
    requires
        cycles.len() == counts.len(),
        forall|j: int| 0 <= j < counts.len() ==> (#[trigger] cycles[j]).len() == counts[j],
    ensures
        max_len(cycles) == max_of(counts),
    decreases cycles.len(),
{
    if cycles.len() > 0 {
        lemma_max_of(cycles.drop_last(), counts.drop_last());
        assert(cycles.last().len() == counts.last());
    }
}

/// The range that `s` denotes for a placeholder of kind `k`.
fn parse_range(k: Kind, s: &str) -> (r: Option<AddrRange<Addr>>)
    ensures
        match kind_range(k, s@) {
            Some(b) => r is Some && r->0.wf() && r->0.spec_start().family() == kind_family(k)
                && r->0.spec_start().value() == b.0 && r->0.spec_end().value() == b.1
                && r->0.spec_overflow() == b.2,
            None => r is None,
        },
{
    reveal(kind_range);
    match k {
        Kind::MacAddr => match AddrRange::<MacAddr>::from_str(s) {
            Ok(r) => Some(r.into_range()),
            Err(_) => None,
        },
        Kind::IPv4Addr => match AddrRange::<IPv4Addr>::from_str(s) {
            Ok(r) => Some(r.into_range()),
            Err(_) => None,
        },
        Kind::IPv6Addr | Kind::IPv6FullAddr => match AddrRange::<IPv6Addr>::from_str(s) {
            Ok(r) => Some(r.into_range()),
            Err(_) => None,
        },
        Kind::Number => match AddrRange::<u128>::from_str(s) {
            Ok(r) => Some(r.into_range()),
            Err(_) => None,
        },
    }
}

/// What the values of a range bound to a placeholder are, in order.
#[verifier::opaque]
pub open spec fn values_of(k: Kind, b: (nat, nat, bool), values: Seq<Addr>) -> bool {
    &&& values.len() == slot_count(k, b)
    &&& values.len() > 0
    &&& forall|i: int|
        0 <= i < values.len() ==> (#[trigger] values[i]).wf() && values[i].family() == kind_family(
            k,
        ) && values[i].value() == range_nth(kind_family(k).modulus(), b.0, b.1, b.2, i as nat)
}

/// The kind of a placeholder token; `None` for literal text.
fn slot_kind(f: &Format) -> (r: Option<Kind>)
    ensures
        match f@ {
            Token::Slot(k) => r == Some(k),
            Token::Text(_) => r is None,
        },
{
    match f {
        Format::RawString(_) => None,
        Format::MacAddr => Some(Kind::MacAddr),
        Format::IPv4Addr => Some(Kind::IPv4Addr),
        Format::IPv6Addr => Some(Kind::IPv6Addr),
        Format::IPv6FullAddr => Some(Kind::IPv6FullAddr),
        Format::Number => Some(Kind::Number),
    }
}

/// The sequence of the range that `s` denotes for a placeholder of kind `k`.
fn bind_slot(k: Kind, s: &String) -> (r: Option<AddrRangeIter<Addr>>)
    ensures
        match kind_range(k, s@) {
            Some(b) => r is Some && r->0.inv() && r->0.position() == 0 && values_of(
                k,
                b,
                r->0.cycle(),
            ),
            None => r is None,
        },
{
    match parse_range(k, s.as_str()) {
        Some(range) => {
            proof {
                lemma_cardinality(range);
                reveal(values_of);
            }
            Some(range.into_iter())
        },
        None => None,
    }
}

/// A template bound to its arguments, giving its lines one at a time.
pub struct Renderer {
    tokens: Vec<Format>,
    rows: BundledIter<AddrRangeIter<Addr>>,
    has_slots: bool,
    single_done: bool,
    lines: Ghost<Seq<Seq<char>>>,
    binds: Ghost<Seq<(nat, nat, bool)>>,
    count: Ghost<nat>,
}

impl Renderer {
    /// The lines that the renderer gives, in order.
    pub closed spec fn lines(&self) -> Seq<Seq<char>> {
        self.lines@
    }

    /// How many lines it has given.
    pub closed spec fn emitted(&self) -> nat {
        self.count@
    }

    pub closed spec fn inv(&self) -> bool {
        let tokens = token_views(self.tokens@);
        let kinds = slots(tokens);
        let binds = self.binds@;
        &&& binds.len() == kinds.len()
        &&& self.has_slots == (kinds.len() > 0)
        &&& self.count@ <= self.lines@.len()
        &&& !self.has_slots ==> {
            &&& self.lines@ == seq![render_row(tokens, binds, 0).push('\n')]
            &&& self.count@ == (if self.single_done {
                1nat
            } else {
                0
            })
        }
        &&& self.has_slots ==> {
            let cycles = self.rows.cycles();
            &&& self.rows.inv()
            &&& cycles.len() == kinds.len()
            &&& forall|j: int| 0 <= j < kinds.len() ==> values_of(kinds[j], binds[j], #[trigger] cycles[j])
            &&& self.lines@ == Seq::new(
                row_count(cycles),
                |t: int| render_row(tokens, binds, t as nat).push('\n'),
            )
            &&& !self.rows.finished() ==> self.rows.emitted() == self.count@
            &&& self.rows.finished() ==> self.count@ == self.lines@.len()
        }
    }

    /// Binds the placeholders of `fmt_str` to `args`, one argument each in
    /// order.
    #[verifier::rlimit(100)]
    pub fn new(fmt_str: &str, args: &Vec<String>) -> (r: Result<Renderer, FormatError>)
        ensures
            match rendered(fmt_str@, arg_views(args@)) {
                Ok(lines) => r is Ok && r->Ok_0.inv() && r->Ok_0.lines() == lines
                    && r->Ok_0.emitted() == 0,
                Err(e) => r is Err && r->Err_0.kind == e,
            },
    {
        let tokens = match parse_format(fmt_str) {
            Ok(t) => t,
            Err(e) => {
                return Err(e);
            },
        };
        let ghost tv = token_views(tokens@);
        let ghost kinds = slots(tv);
        let ghost av = arg_views(args@);
        let mut bundle: IterBundle<AddrRangeIter<Addr>> = IterBundle::new();
        let mut offset: usize = 0;
        let mut i: usize = 0;
        assert(tv.subrange(0, 0) =~= Seq::<Token>::empty());
        while i < tokens.len()
            invariant
                i <= tokens@.len(),
                tv == token_views(tokens@),
                template_tokens(fmt_str@) == Ok::<Seq<Token>, ErrorKind>(tv),
                kinds == slots(tv),
                av == arg_views(args@),
                offset == slots(tv.subrange(0, i as int)).len(),
                offset <= args@.len(),
                offset <= kinds.len(),
                bundle.spec_iters().len() == offset,
                forall|j: int| 0 <= j < offset ==> (#[trigger] kind_range(kinds[j], av[j])) is Some,
                forall|j: int|
                    0 <= j < offset ==> (#[trigger] bundle.spec_iters()[j]).inv()
                        && bundle.spec_iters()[j].position() == 0 && values_of(
                        kinds[j],
                        kind_range(kinds[j], av[j])->0,
                        bundle.spec_iters()[j].cycle(),
                    ),
            decreases tokens@.len() - i,
        {
            proof {
                lemma_slots_prefix(tv, i as int + 1);
                lemma_slots_prefix(tv, i as int);
                assert(tv.subrange(0, i as int + 1).drop_last() =~= tv.subrange(0, i as int));
            }
            let kind = slot_kind(&tokens[i]);
            assert(tv[i as int] == tokens@[i as int]@);
            if let Some(k) = kind {
                assert(slots(tv.subrange(0, i as int + 1)) == slots(tv.subrange(0, i as int)).push(k));
                proof {
                    let p = slots(tv.subrange(0, i as int + 1));
                    assert(p.len() == offset + 1);
                    assert(p[offset as int] == k);
                    assert(p == kinds.subrange(0, p.len() as int));
                    assert(kinds.subrange(0, p.len() as int)[offset as int] == kinds[offset as int]);
                }
                if offset >= args.len() {
                    proof {
                        lemma_bind_error_steps(kinds, av, offset as nat);
                        assert(av.len() == args@.len());
                        assert(bind_error(kinds, av, offset as nat) == Some(
                            ErrorKind::InsufficientArguments,
                        ));
                        assert(template_tokens(fmt_str@) == Ok::<Seq<Token>, ErrorKind>(tv));
                    }
                    return Err(FormatError::new(ErrorKind::InsufficientArguments));
                }
                let iter = match bind_slot(k, &args[offset]) {
                    Some(it) => it,
                    None => {
                        proof {
                            lemma_bind_error_steps(kinds, av, offset as nat);
                            assert(av[offset as int] == args@[offset as int]@);
                            assert(bind_error(kinds, av, offset as nat) == Some(
                                ErrorKind::InvalidAddress(k),
                            ));
                        }
                        return Err(FormatError::new(ErrorKind::InvalidAddress(k)));
                    },
                };
                let ghost before = bundle.spec_iters();
                let ghost added = iter;
                proof {
                    assert(av[offset as int] == args@[offset as int]@);
                    assert(values_of(
                        kinds[offset as int],
                        kind_range(kinds[offset as int], av[offset as int])->0,
                        added.cycle(),
                    ));
                }
                bundle.push(iter);
                proof {
                    assert forall|j: int| 0 <= j < offset + 1 implies (#[trigger] bundle.spec_iters()[j]).inv()
                        && bundle.spec_iters()[j].position() == 0 && values_of(
                        kinds[j],
                        kind_range(kinds[j], av[j])->0,
                        bundle.spec_iters()[j].cycle(),
                    ) by {
                        if j < offset {
                            assert(bundle.spec_iters()[j] == before[j]);
                        } else {
                            assert(bundle.spec_iters()[j] == added);
                        }
                    }
                }
                offset += 1;
            }
            i += 1;
        }
        assert(tv.subrange(0, i as int) =~= tv);
        if offset != args.len() {
            proof {
                lemma_bind_error_steps(kinds, av, offset as nat);
            }
            return Err(FormatError::new(ErrorKind::UnexpectedArgument));
        }
        proof {
            lemma_bind_error_steps(kinds, av, offset as nat);
        }
        let ghost binds = bindings(kinds, av);
        let ghost iters = bundle.spec_iters();
        let rows = bundle.into_iter();
        let has_slots = offset > 0;
        let ghost lines = if kinds.len() == 0 {
            seq![render_row(tv, binds, 0).push('\n')]
        } else {
            Seq::new(
                row_count(rows.cycles()),
                |t: int| render_row(tv, binds, t as nat).push('\n'),
            )
        };
        let r = Renderer {
            tokens,
            rows,
            has_slots,
            single_done: false,
            lines: Ghost(lines),
            binds: Ghost(binds),
            count: Ghost(0),
        };
        proof {
            let cycles = rows.cycles();
            assert forall|j: int| 0 <= j < kinds.len() implies values_of(
                kinds[j],
                binds[j],
                #[trigger] cycles[j],
            ) by {
                assert(cycles[j] == iters[j].cycle());
            }
            reveal(values_of);
            if kinds.len() > 0 {
                let counts = Seq::new(kinds.len(), |j: int| slot_count(kinds[j], binds[j]));
                assert forall|j: int| 0 <= j < cycles.len() implies (#[trigger] cycles[j]).len() > 0 by {
                    assert(values_of(kinds[j], binds[j], cycles[j]));
                }
                assert(all_nonempty(cycles));
                assert forall|j: int| 0 <= j < counts.len() implies (#[trigger] cycles[j]).len()
                    == counts[j] by {
                    assert(values_of(kinds[j], binds[j], cycles[j]));
                }
                lemma_max_of(cycles, counts);
            }
        }
        Ok(r)
    }
}

/// Appends the text of `a` as a placeholder of kind `k` shows it.
fn push_value(out: &mut String, k: Kind, a: &Addr)
    requires
        a.wf(),
        a.family() == kind_family(k),
    ensures
        final(out)@ == old(out)@ + (if k == Kind::IPv6FullAddr {
            ipv6_full_text(a.value())
        } else {
            family_text(a.family(), a.value())
        }),
{
    match k {
        Kind::IPv6FullAddr => match a.to_full_string() {
            Some(text) => push_str(out, text.as_str()),
            None => {},
        },
        _ => {
            let text = a.to_string();
            push_str(out, text.as_str());
        },
    }
}

/// Row `t` of the template, given the values of the row, and a newline.
fn render_line(
    tokens: &Vec<Format>,
    row: &Vec<Addr>,
    binds: Ghost<Seq<(nat, nat, bool)>>,
    t: Ghost<nat>,
) -> (r: String)
    requires
        row@.len() == slots(token_views(tokens@)).len(),
        binds@.len() == slots(token_views(tokens@)).len(),
        forall|j: int|
            0 <= j < row@.len() ==> {
                let k = slots(token_views(tokens@))[j];
                let b = binds@[j];
                &&& (#[trigger] row@[j]).wf()
                &&& row@[j].family() == kind_family(k)
                &&& row@[j].value() == range_nth(
                    kind_family(k).modulus(),
                    b.0,
                    b.1,
                    b.2,
                    t@ % slot_count(k, b),
                )
            },
    ensures
        r@ == render_row(token_views(tokens@), binds@, t@).push('\n'),
{
    let ghost tv = token_views(tokens@);
    let ghost kinds = slots(tv);
    let mut out = String::new();
    let mut i: usize = 0;
    let mut j: usize = 0;
    let n = row.len();
    assert(tv.subrange(0, 0) =~= Seq::<Token>::empty());
    while i < tokens.len()
        invariant
            i <= tokens@.len(),
            tv == token_views(tokens@),
            kinds == slots(tv),
            row@.len() == kinds.len(),
            n == row@.len(),
            binds@.len() == kinds.len(),
            j == slots(tv.subrange(0, i as int)).len(),
            j <= kinds.len(),
            out@ == render_row(tv.subrange(0, i as int), binds@, t@),
            forall|j: int|
                0 <= j < row@.len() ==> {
                    let k = kinds[j];
                    let b = binds@[j];
                    &&& (#[trigger] row@[j]).wf()
                    &&& row@[j].family() == kind_family(k)
                    &&& row@[j].value() == range_nth(
                        kind_family(k).modulus(),
                        b.0,
                        b.1,
                        b.2,
                        t@ % slot_count(k, b),
                    )
                },
        decreases tokens@.len() - i,
    {
        let ghost pre = tv.subrange(0, i as int + 1);
        proof {
            lemma_slots_prefix(tv, i as int + 1);
            assert(pre.drop_last() =~= tv.subrange(0, i as int));
            assert(tv[i as int] == tokens@[i as int]@);
        }
        match &tokens[i] {
            Format::RawString(text) => {
                push_str(&mut out, text.as_str());
            },
            f => {
                let k = match slot_kind(f) {
                    Some(k) => k,
                    None => Kind::Number,
                };
                proof {
                    let p = slots(pre);
                    assert(p == slots(tv.subrange(0, i as int)).push(k));
                    assert(p == kinds.subrange(0, p.len() as int));
                    assert(kinds.subrange(0, p.len() as int)[j as int] == kinds[j as int]);
                }
                push_value(&mut out, k, &row[j]);
                j += 1;
            },
        }
        i += 1;
    }
    assert(tv.subrange(0, i as int) =~= tv);
    push_char(&mut out, '\n');
    out
}

impl Renderer {
    /// The next line of output, with its newline, or `None` once every line
    /// has been given.
    pub fn next_line(&mut self) -> (r: Option<String>)
        requires
            old(self).inv(),
        ensures
            final(self).inv(),
            final(self).lines() == old(self).lines(),
            old(self).emitted() < old(self).lines().len() ==> r is Some && r->0@ == old(
                self,
            ).lines()[old(self).emitted() as int] && final(self).emitted() == old(self).emitted()
                + 1,
            old(self).emitted() >= old(self).lines().len() ==> r is None && final(self).emitted()
                == old(self).emitted(),
    {
        if !self.has_slots {
            if self.single_done {
                return None;
            }
            let empty: Vec<Addr> = Vec::new();
            let line = render_line(&self.tokens, &empty, Ghost(self.binds@), Ghost(0));
            self.single_done = true;
            self.count = Ghost(1);
            return Some(line);
        }
        let ghost t = self.count@;
        let ghost cycles = self.rows.cycles();
        match self.rows.next() {
            Some(row) => {
                proof {
                    reveal(values_of);
                    let kinds = slots(token_views(self.tokens@));
                    assert forall|j: int| 0 <= j < row@.len() implies {
                        let k = kinds[j];
                        let b = self.binds@[j];
                        &&& (#[trigger] row@[j]).wf()
                        &&& row@[j].family() == kind_family(k)
                        &&& row@[j].value() == range_nth(
                            kind_family(k).modulus(),
                            b.0,
                            b.1,
                            b.2,
                            t % slot_count(k, b),
                        )
                    } by {
                        assert(values_of(kinds[j], self.binds@[j], cycles[j]));
                        assert(row@[j] == cycles[j][(t % cycles[j].len()) as int]);
                        vstd::arithmetic::div_mod::lemma_mod_bound(t as int, cycles[j].len() as int);
                    }
                }
                let line = render_line(&self.tokens, &row, Ghost(self.binds@), Ghost(t));
                self.count = Ghost(t + 1);
                Some(line)
            },
            None => None,
        }
    }
}

/// Relies on `std::io::Write::write_all`: writes the whole of `text`, or
/// gives the reason it could not.
#[verifier::external_body]
fn write_text<W: std::io::Write>(writer: &mut W, text: &str) -> (r: Result<(), String>) {
    match writer.write_all(text.as_bytes()) {
        Ok(()) => Ok(()),
        Err(e) => Err(format!("{}", e)),
    }
}

/// Relies on `std::io::Write::flush`: passes on what has been written, or
/// gives the reason it could not.
#[verifier::external_body]
fn flush_writer<W: std::io::Write>(writer: &mut W) -> (r: Result<(), String>) {
    match writer.flush() {
        Ok(()) => Ok(()),
        Err(e) => Err(format!("{}", e)),
    }
}

/// Renders `fmt_str` against `args` into `writer`, one line per row, each
/// flushed before the next is made. No line is written where the template
/// or the arguments are in error; a failed write ends the output.
pub fn format_macipr<W: std::io::Write>(writer: &mut W, fmt_str: &str, args: &Vec<String>) -> (r:
    Result<(), FormatError>)
    ensures
        rendered(fmt_str@, arg_views(args@)) is Err ==> r is Err && r->Err_0.kind == rendered(
            fmt_str@,
            arg_views(args@),
        )->Err_0,
        rendered(fmt_str@, arg_views(args@)) is Ok ==> r is Ok || r->Err_0.kind is Write,
{
    let mut renderer = match Renderer::new(fmt_str, args) {
        Ok(r) => r,
        Err(e) => {
            return Err(e);
        },
    };
    loop
        invariant
            renderer.inv(),
            rendered(fmt_str@, arg_views(args@)) is Ok,
        decreases renderer.lines().len() - renderer.emitted(),
    {
        match renderer.next_line() {
            Some(line) => {
                match write_text(writer, line.as_str()) {
                    Ok(()) => {},
                    Err(msg) => {
                        return Err(FormatError::new(ErrorKind::Write(msg)));
                    },
                }
                match flush_writer(writer) {
                    Ok(()) => {},
                    Err(msg) => {
                        return Err(FormatError::new(ErrorKind::Write(msg)));
                    },
                }
            },
            None => {
                return Ok(());
            },
        }
    }
}

} // verus!
