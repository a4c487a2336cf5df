//! The template language: literal text, escapes and placeholders, and the
//! errors of rendering.
use vstd::prelude::*;
use crate::text::push_char;

verus! {

/// What a placeholder asks for.
#[derive(Debug, PartialEq, Eq, Structural, Clone, Copy)]
pub enum Kind {
    MacAddr,
    IPv4Addr,
    IPv6Addr,
    IPv6FullAddr,
    Number,
}

/// One token of a parsed template.
#[derive(Debug, PartialEq)]
pub enum Format {
    IPv4Addr,
    IPv6Addr,
    IPv6FullAddr,
    MacAddr,
    Number,
    RawString(String),
}

/// A template token as a value: literal text, or a placeholder.
pub enum Token {
    Text(Seq<char>),
    Slot(Kind),
}

impl View for Format {
    type V = Token;

    open spec fn view(&self) -> Token {
        match self {
            Format::IPv4Addr => Token::Slot(Kind::IPv4Addr),
            Format::IPv6Addr => Token::Slot(Kind::IPv6Addr),
            Format::IPv6FullAddr => Token::Slot(Kind::IPv6FullAddr),
            Format::MacAddr => Token::Slot(Kind::MacAddr),
            Format::Number => Token::Slot(Kind::Number),
            Format::RawString(s) => Token::Text(s@),
        }
    }
}

/// Why rendering failed.
#[derive(Debug, PartialEq)]
pub enum ErrorKind {
    /// A `%` followed by a character that names no placeholder.
    UnknownDirective(char),
    /// A `\` followed by a character that names no escape.
    UnknownEscape(char),
    /// The template ends after a `%` or a `\`.
    DanglingEscape,
    /// A placeholder has no argument left.
    InsufficientArguments,
    /// An argument is left over once every placeholder is bound.
    UnexpectedArgument,
    /// The argument of a placeholder of this kind is no range of its family.
    InvalidAddress(Kind),
    /// Writing the output failed, for the reason given.
    Write(String),
}

/// A failed rendering.
#[derive(Debug, PartialEq)]
pub struct FormatError {
    pub kind: ErrorKind,
}

/// How a placeholder kind is named in messages.
pub open spec fn kind_name(k: Kind) -> Seq<char> {
    match k {
        Kind::MacAddr => "MAC address"@,
        Kind::IPv4Addr => "IPv4 address"@,
        Kind::IPv6Addr => "IPv6 address"@,
        Kind::IPv6FullAddr => "IPv6 full address"@,
        Kind::Number => "Number"@,
    }
}

pub open spec fn error_message(k: ErrorKind) -> Seq<char> {
    match k {
        ErrorKind::UnknownDirective(_) => "Unexpected character after %"@,
        ErrorKind::UnknownEscape(_) => "Unexpected character after \\"@,
        ErrorKind::DanglingEscape => "Unfinished escape at the end of the format"@,
        ErrorKind::InsufficientArguments => "Insufficient number of arguments"@,
        ErrorKind::UnexpectedArgument => "Unexpected argument"@,
        ErrorKind::InvalidAddress(kind) => "Invalid "@ + kind_name(kind),
        ErrorKind::Write(msg) => msg@,
    }
}

impl Kind {
    /// How the kind is named in messages.
    pub fn describe(&self) -> (r: String)
        ensures
            r@ == kind_name(*self),
    {
        match self {
            Kind::MacAddr => "MAC address".to_owned(),
            Kind::IPv4Addr => "IPv4 address".to_owned(),
            Kind::IPv6Addr => "IPv6 address".to_owned(),
            Kind::IPv6FullAddr => "IPv6 full address".to_owned(),
            Kind::Number => "Number".to_owned(),
        }
    }
}

impl Format {
    /// Whether the token takes an argument.
    pub fn is_arg_required(&self) -> (r: bool)
        ensures
            r == (self@ is Slot),
    {
        match self {
            Format::RawString(_) => false,
            _ => true,
        }
    }

    /// How the token is named: the kind of a placeholder, or "Raw string".
    pub fn describe(&self) -> (r: String)
        ensures
            r@ == (match self@ {
                Token::Slot(k) => kind_name(k),
                Token::Text(_) => "Raw string"@,
            }),
    {
        match self {
            Format::IPv4Addr => Kind::IPv4Addr.describe(),
            Format::IPv6Addr => Kind::IPv6Addr.describe(),
            Format::IPv6FullAddr => Kind::IPv6FullAddr.describe(),
            Format::MacAddr => Kind::MacAddr.describe(),
            Format::Number => Kind::Number.describe(),
            Format::RawString(_) => "Raw string".to_owned(),
        }
    }
}

impl FormatError {
    pub fn new(kind: ErrorKind) -> (r: FormatError)
        ensures
            r.kind == kind,
    {
        FormatError { kind }
    }

    /// The message that describes the error.
    pub fn message(&self) -> (r: String)
        ensures
            r@ == error_message(self.kind),
    {
        match &self.kind {
            ErrorKind::UnknownDirective(_) => "Unexpected character after %".to_owned(),
            ErrorKind::UnknownEscape(_) => "Unexpected character after \\".to_owned(),
            ErrorKind::DanglingEscape => "Unfinished escape at the end of the format".to_owned(),
            ErrorKind::InsufficientArguments => "Insufficient number of arguments".to_owned(),
            ErrorKind::UnexpectedArgument => "Unexpected argument".to_owned(),
            ErrorKind::InvalidAddress(kind) => {
                let mut m = "Invalid ".to_owned();
                let name = kind.describe();
                m.append(name.as_str());
                m
            },
            ErrorKind::Write(msg) => msg.clone(),
        }
    }
}

/// Where the template scanner stands.
#[derive(PartialEq, Eq, Structural)]
pub enum ScanState {
    Normal,
    AfterPercent,
    AfterBackslash,
}

/// The placeholder that `%c` names.
pub open spec fn directive(c: char) -> Option<Kind> {
    if c == 'm' {
        Some(Kind::MacAddr)
    } else if c == 'i' {
        Some(Kind::IPv4Addr)
    } else if c == 'x' {
        Some(Kind::IPv6Addr)
    } else if c == 'X' {
        Some(Kind::IPv6FullAddr)
    } else if c == 'n' {
        Some(Kind::Number)
    } else {
        None
    }
}

/// The tokens with the pending literal text, if any, appended.
pub open spec fn flush(tokens: Seq<Token>, buf: Seq<char>) -> Seq<Token> {
    if buf.len() > 0 {
        tokens.push(Token::Text(buf))
    } else {
        tokens
    }
}

/// The scanner's state, tokens and pending literal text after the
/// characters of `s`, or the first error.
pub open spec fn scan(s: Seq<char>) -> Result<(ScanState, Seq<Token>, Seq<char>), ErrorKind>
    decreases s.len(),
{
    if s.len() == 0 {
        Ok((ScanState::Normal, Seq::empty(), Seq::empty()))
    } else {
        match scan(s.drop_last()) {
            Err(e) => Err(e),
            Ok((state, tokens, buf)) => {
                let c = s.last();
                match state {
                    ScanState::Normal => if c == '%' {
                        Ok((ScanState::AfterPercent, tokens, buf))
                    } else if c == '\\' {
                        Ok((ScanState::AfterBackslash, tokens, buf))
                    } else {
                        Ok((ScanState::Normal, tokens, buf.push(c)))
                    },
                    ScanState::AfterPercent => if c == '%' {
                        Ok((ScanState::Normal, tokens, buf.push('%')))
                    } else {
                        match directive(c) {
                            Some(k) => Ok(
                                (ScanState::Normal, flush(tokens, buf).push(Token::Slot(k)), Seq::empty()),
                            ),
                            None => Err(ErrorKind::UnknownDirective(c)),
                        }
                    },
                    ScanState::AfterBackslash => if c == '\\' {
                        Ok((ScanState::Normal, tokens, buf.push('\\')))
                    } else if c == 'n' {
                        Ok((ScanState::Normal, tokens, buf.push('\n')))
                    } else {
                        Err(ErrorKind::UnknownEscape(c))
                    },
                }
            },
        }
    }
}

/// The tokens of a template, or the first error in it.
pub open spec fn template_tokens(s: Seq<char>) -> Result<Seq<Token>, ErrorKind> {
    match scan(s) {
        Err(e) => Err(e),
        Ok((state, tokens, buf)) => if state == ScanState::Normal {
            Ok(flush(tokens, buf))
        } else {
            Err(ErrorKind::DanglingEscape)
        },
    }
}

pub open spec fn token_views(v: Seq<Format>) -> Seq<Token> {
    Seq::new(v.len(), |i: int| v[i]@)
}

fn directive_exec(c: char) -> (r: Option<Format>)
    ensures
        match directive(c) {
            Some(k) => r is Some && r->0@ == Token::Slot(k),
            None => r is None,
        },
{
    if c == 'm' {
        Some(Format::MacAddr)
    } else if c == 'i' {
        Some(Format::IPv4Addr)
    } else if c == 'x' {
        Some(Format::IPv6Addr)
    } else if c == 'X' {
        Some(Format::IPv6FullAddr)
    } else if c == 'n' {
        Some(Format::Number)
    } else {
        None
    }
}

/// Appends the pending literal text as a token, if there is any.
fn flush_exec(tokens: &mut Vec<Format>, buf: String)
    ensures
        token_views(final(tokens)@) == flush(token_views(old(tokens)@), buf@),
{
    let ghost text = buf@;
    if !buf.as_str().is_empty() {
        tokens.push(Format::RawString(buf));
    }
    assert(token_views(tokens@) =~= flush(token_views(old(tokens)@), text));
}

/// Parses a template into literal text and placeholders.
pub fn parse_format(fmt_str: &str) -> (r: Result<Vec<Format>, FormatError>)
    ensures
        match template_tokens(fmt_str@) {
            Ok(tokens) => r is Ok && token_views(r->Ok_0@) == tokens,
            Err(e) => r is Err && r->Err_0.kind == e,
        },
{
    let s = crate::text::chars_of(fmt_str);
    let mut tokens: Vec<Format> = Vec::new();
    let mut buf = String::new();
    let mut state = ScanState::Normal;
    let mut i: usize = 0;
    assert(s@.subrange(0, 0) =~= Seq::<char>::empty());
    assert(token_views(tokens@) =~= Seq::<Token>::empty());
    while i < s.len()
        invariant
            i <= s@.len(),
            s@ == fmt_str@,
            scan(s@.subrange(0, i as int)) == Ok::<(ScanState, Seq<Token>, Seq<char>), ErrorKind>(
                (state, token_views(tokens@), buf@),
            ),
        decreases s@.len() - i,
    {
        let c = s[i];
        let ghost pre = s@.subrange(0, i as int + 1);
        assert(pre.drop_last() =~= s@.subrange(0, i as int));
        match state {
            ScanState::Normal => {
                if c == '%' {
                    state = ScanState::AfterPercent;
                } else if c == '\\' {
                    state = ScanState::AfterBackslash;
                } else {
                    push_char(&mut buf, c);
                }
            },
            ScanState::AfterPercent => {
                state = ScanState::Normal;
                if c == '%' {
                    push_char(&mut buf, '%');
                } else {
                    match directive_exec(c) {
                        Some(f) => {
                            let pending = buf;
                            buf = String::new();
                            flush_exec(&mut tokens, pending);
                            let ghost before = tokens@;
                            tokens.push(f);
                            assert(token_views(tokens@) =~= token_views(before).push(f@));
                        },
                        None => {
                            proof {
                                assert(scan(pre) == Err::<(ScanState, Seq<Token>, Seq<char>), ErrorKind>(
                                    ErrorKind::UnknownDirective(c),
                                ));
                                lemma_scan_error(s@, i as int + 1);
                            }
                            return Err(FormatError::new(ErrorKind::UnknownDirective(c)));
                        },
                    }
                }
            },
            ScanState::AfterBackslash => {
                state = ScanState::Normal;
                if c == '\\' {
                    push_char(&mut buf, '\\');
                } else if c == 'n' {
                    push_char(&mut buf, '\n');
                } else {
                    proof {
                        assert(scan(pre) == Err::<(ScanState, Seq<Token>, Seq<char>), ErrorKind>(
                            ErrorKind::UnknownEscape(c),
                        ));
                        lemma_scan_error(s@, i as int + 1);
                    }
                    return Err(FormatError::new(ErrorKind::UnknownEscape(c)));
                }
            },
        }
        i += 1;
    }
    assert(s@.subrange(0, i as int) =~= s@);
    if state != ScanState::Normal {
        return Err(FormatError::new(ErrorKind::DanglingEscape));
    }
    flush_exec(&mut tokens, buf);
    Ok(tokens)
}

/// An error in a prefix of the template is the error of the whole.
proof fn lemma_scan_error(s: Seq<char>, k: int)
    requires
        0 <= k <= s.len(),
        scan(s.subrange(0, k)) is Err,
    ensures
        scan(s) == scan(s.subrange(0, k)),
    decreases s.len() - k,
{
    if k < s.len() {
        let next = s.subrange(0, k + 1);
        assert(next.drop_last() =~= s.subrange(0, k));
        lemma_scan_error(s, k + 1);
    } else {
        assert(s.subrange(0, k) =~= s);
    }
}

} // verus!
