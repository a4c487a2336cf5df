use macipr::{format_macipr, parse_format, ErrorKind, Format, FormatError, Kind, Renderer};

fn fmt_macipr_str(fmt_str: &str, args: &Vec<String>) -> Result<String, String> {
    let mut v = vec![];
    format_macipr(&mut v, fmt_str, args).map_err(|e| e.message())?;
    Ok(String::from_utf8_lossy(&v).to_string())
}

#[test]
fn parse_format_empty() {
    assert_eq!(parse_format(""), Ok(vec![]));
}

#[test]
fn parse_format_raw_string() {
    assert_eq!(
        parse_format("foo bar"),
        Ok(vec![Format::RawString("foo bar".to_string())])
    );
}

#[test]
fn parse_format_percent_escape() {
    assert_eq!(
        parse_format("foo %% bar"),
        Ok(vec![Format::RawString("foo % bar".to_string())])
    );
}

#[test]
fn parse_format_macaddr() {
    assert_eq!(parse_format("%m"), Ok(vec![Format::MacAddr]));
}

#[test]
fn parse_format_ipv4addr() {
    assert_eq!(parse_format("%i"), Ok(vec![Format::IPv4Addr]));
}

#[test]
fn parse_format_ipv6addr() {
    assert_eq!(parse_format("%x"), Ok(vec![Format::IPv6Addr]));
}

#[test]
fn parse_format_ipv6fulladdr() {
    assert_eq!(parse_format("%X"), Ok(vec![Format::IPv6FullAddr]));
}

#[test]
fn parse_format_number() {
    assert_eq!(parse_format("%n"), Ok(vec![Format::Number]));
}

#[test]
fn parse_format_escape() {
    assert_eq!(
        parse_format("\\n"),
        Ok(vec![Format::RawString("\n".to_string())])
    );
    assert_eq!(
        parse_format("\\\\"),
        Ok(vec![Format::RawString("\\".to_string())])
    );
    assert_eq!(
        parse_format("\\\\%m\\n%i\\\\foo"),
        Ok(vec![
            Format::RawString("\\".to_string()),
            Format::MacAddr,
            Format::RawString("\n".to_string()),
            Format::IPv4Addr,
            Format::RawString("\\foo".to_string()),
        ])
    );
}

#[test]
fn parse_format_error() {
    assert_eq!(
        parse_format("%k").unwrap_err().message(),
        "Unexpected character after %".to_string()
    );
    assert_eq!(
        parse_format("\\r").unwrap_err().message(),
        "Unexpected character after \\".to_string()
    );
}

#[test]
fn format_macaddr_empty_arg() {
    let args = vec![];
    assert_eq!(fmt_macipr_str("foo", &args), Ok("foo\n".to_string()));
}

#[test]
fn format_macaddr_mac_only() {
    let args = vec!["00:01:02:03:04:05".to_string()];
    assert_eq!(
        fmt_macipr_str("%m", &args),
        Ok("00:01:02:03:04:05\n".to_string())
    );
}

#[test]
fn format_macaddr_mac_and_string() {
    let args = vec!["00:01:02:03:04:05".to_string()];
    assert_eq!(
        fmt_macipr_str("prefix %m", &args),
        Ok("prefix 00:01:02:03:04:05\n".to_string())
    );

    assert_eq!(
        fmt_macipr_str("%m postfix", &args),
        Ok("00:01:02:03:04:05 postfix\n".to_string())
    );

    assert_eq!(
        fmt_macipr_str("prefix %m postfix", &args),
        Ok("prefix 00:01:02:03:04:05 postfix\n".to_string())
    );
}

#[test]
fn format_macaddr_multiple_macs() {
    let args = vec![
        "00:00:00:00:00:01".to_string(),
        "00:00:00:00:00:02".to_string(),
        "00:00:00:00:00:03".to_string(),
    ];
    assert_eq!(
        fmt_macipr_str("MAC %m, %m and %m", &args),
        Ok("MAC 00:00:00:00:00:01, 00:00:00:00:00:02 and 00:00:00:00:00:03\n".to_string())
    );
}

#[test]
fn format_macaddr_range_one_mac() {
    let args = vec!["1-3".to_string()];
    assert_eq!(
        fmt_macipr_str("MAC=%m", &args),
        Ok("MAC=00:00:00:00:00:01\nMAC=00:00:00:00:00:02\nMAC=00:00:00:00:00:03\n".to_string())
    );
}

#[test]
fn format_macaddr_range_multiple_macs() {
    let args = vec![
        "1-5".to_string(),
        "ff:ff:ff:ff:ff:00-ff:ff:ff:ff:ff:03".to_string(),
    ];
    assert_eq!(
        fmt_macipr_str("%m, %m", &args),
        Ok("\
00:00:00:00:00:01, ff:ff:ff:ff:ff:00
00:00:00:00:00:02, ff:ff:ff:ff:ff:01
00:00:00:00:00:03, ff:ff:ff:ff:ff:02
00:00:00:00:00:04, ff:ff:ff:ff:ff:03
00:00:00:00:00:05, ff:ff:ff:ff:ff:00
"
        .to_string())
    );
}

#[test]
fn format_macaddr_invalid_mac_err() {
    let args = vec!["00:00:00-00:00:01".to_string()];
    assert_eq!(
        fmt_macipr_str("This is %m", &args),
        Err("Invalid MAC address".to_string())
    );
}

#[test]
fn format_macaddr_insufficient_arg_err() {
    let args = vec!["00:00:00:00:00:01".to_string()];
    assert_eq!(
        fmt_macipr_str("This is %m", &vec![]),
        Err("Insufficient number of arguments".to_string())
    );

    assert_eq!(
        fmt_macipr_str("This is %m%m", &args),
        Err("Insufficient number of arguments".to_string())
    );
}

#[test]
fn format_macaddr_unexpected_arg_err() {
    let args = vec!["00:00:00:00:00:01".to_string()];
    assert_eq!(
        fmt_macipr_str("This is it", &args),
        Err("Unexpected argument".to_string())
    );
}

#[test]
fn format_ipv4addr_one_ipv4() {
    let args = vec!["192.168.0.1".to_string()];
    assert_eq!(
        fmt_macipr_str("This is %i", &args),
        Ok("This is 192.168.0.1\n".to_string())
    );
}

#[test]
fn format_ipv4addr_invalid_ipv4_err() {
    let args = vec!["192.168.1".to_string()];
    assert_eq!(
        fmt_macipr_str("This is %i", &args),
        Err("Invalid IPv4 address".to_string())
    );
}

#[test]
fn format_ipv6addr_one_ipv6() {
    let args = vec!["fe80::0100:0000:0000".to_string()];
    assert_eq!(
        fmt_macipr_str("This is %x", &args),
        Ok("This is fe80::100:0:0\n".to_string())
    );
}

#[test]
fn format_ipv6addr_invalid_ipv6_err() {
    let args = vec!["fe80::0::0".to_string()];
    assert_eq!(
        fmt_macipr_str("This is %x", &args),
        Err("Invalid IPv6 address".to_string())
    );
}

#[test]
fn format_ipv6fulladdr_one_ipv6() {
    let args = vec!["::1".to_string()];
    assert_eq!(
        fmt_macipr_str("This is %X", &args),
        Ok("This is 0000:0000:0000:0000:0000:0000:0000:0001\n".to_string())
    );
}

#[test]
fn format_ipv6fulladdr_invalid_ipv6_err() {
    let args = vec!["fe80::0::0".to_string()];
    assert_eq!(
        fmt_macipr_str("This is %X", &args),
        Err("Invalid IPv6 full address".to_string())
    );
}

#[test]
fn format_number_one_number() {
    let args = vec!["12345".to_string()];
    assert_eq!(
        fmt_macipr_str("This is %n", &args),
        Ok("This is 12345\n".to_string())
    );
}

#[test]
fn format_number_invalid_number() {
    let args = vec!["-10".to_string()];
    assert_eq!(
        fmt_macipr_str("This is %n", &args),
        Err("Invalid Number".to_string())
    );
}

#[test]
fn format_dangling_escape_err() {
    assert_eq!(
        parse_format("abc%").unwrap_err(),
        FormatError::new(ErrorKind::DanglingEscape)
    );
    assert_eq!(
        parse_format("abc\\").unwrap_err().kind,
        ErrorKind::DanglingEscape
    );
    assert!(fmt_macipr_str("abc%", &vec![]).is_err());
}

#[test]
fn format_error_kinds() {
    assert_eq!(parse_format("%k").unwrap_err().kind, ErrorKind::UnknownDirective('k'));
    assert_eq!(parse_format("a\\r").unwrap_err().kind, ErrorKind::UnknownEscape('r'));
    let args = vec!["1".to_string(), "2".to_string()];
    let e = Renderer::new("%n", &args).err().unwrap();
    assert_eq!(e.kind, ErrorKind::UnexpectedArgument);
    let e = Renderer::new("%X", &vec!["1.2.3.4".to_string()]).err().unwrap();
    assert_eq!(e.kind, ErrorKind::InvalidAddress(Kind::IPv6FullAddr));
}

#[test]
fn format_wraparound_ipv4_lines() {
    let args = vec!["255.255.255.254+3".to_string()];
    assert_eq!(
        fmt_macipr_str("%i", &args),
        Ok("255.255.255.254\n255.255.255.255\n0.0.0.0\n0.0.0.1\n".to_string())
    );
    let args = vec!["0.0.0.1+-3".to_string()];
    assert_eq!(
        fmt_macipr_str("%i", &args),
        Ok("0.0.0.1\n0.0.0.0\n255.255.255.255\n255.255.255.254\n".to_string())
    );
}

#[test]
fn format_number_and_ipv6_mixed() {
    let args = vec!["1-2".to_string(), "::ffff:10.0.0.1+1".to_string(), "7".to_string()];
    assert_eq!(
        fmt_macipr_str("%n %x %X", &args),
        Ok("1 ::ffff:10.0.0.1 0000:0000:0000:0000:0000:0000:0000:0007\n\
2 ::ffff:10.0.0.2 0000:0000:0000:0000:0000:0000:0000:0007\n"
            .to_string())
    );
}

#[test]
fn format_percent_and_newline_in_literal() {
    let args = vec!["5".to_string()];
    assert_eq!(
        fmt_macipr_str("100%% %n\\nnext", &args),
        Ok("100% 5\nnext\n".to_string())
    );
}

#[test]
fn format_empty_template_gives_one_empty_line() {
    assert_eq!(fmt_macipr_str("", &vec![]), Ok("\n".to_string()));
}

#[test]
fn renderer_gives_lines_then_none() {
    let args = vec!["3-1".to_string()];
    let mut r = Renderer::new("<%n>", &args).ok().unwrap();
    assert_eq!(r.next_line(), Some("<3>\n".to_string()));
    assert_eq!(r.next_line(), Some("<2>\n".to_string()));
    assert_eq!(r.next_line(), Some("<1>\n".to_string()));
    assert_eq!(r.next_line(), None);
    assert_eq!(r.next_line(), None);
}

#[test]
fn format_describes_kinds() {
    assert_eq!(Format::MacAddr.describe(), "MAC address".to_string());
    assert_eq!(Format::RawString("x".to_string()).describe(), "Raw string".to_string());
    assert!(Format::Number.is_arg_required());
    assert!(!Format::RawString("x".to_string()).is_arg_required());
}

struct FailingWriter;

impl std::io::Write for FailingWriter {
    fn write(&mut self, _buf: &[u8]) -> std::io::Result<usize> {
        Err(std::io::Error::new(std::io::ErrorKind::Other, "disk full"))
    }

    fn flush(&mut self) -> std::io::Result<()> {
        Ok(())
    }
}

struct CountingWriter {
    data: Vec<u8>,
    flushes: usize,
}

impl std::io::Write for CountingWriter {
    fn write(&mut self, buf: &[u8]) -> std::io::Result<usize> {
        self.data.extend_from_slice(buf);
        Ok(buf.len())
    }

    fn flush(&mut self) -> std::io::Result<()> {
        self.flushes += 1;
        Ok(())
    }
}

#[test]
fn format_write_error_is_passed_on() {
    let mut w = FailingWriter;
    let e = format_macipr(&mut w, "%n", &vec!["1-3".to_string()]).unwrap_err();
    assert_eq!(e.kind, ErrorKind::Write("disk full".to_string()));
    assert_eq!(e.message(), "disk full".to_string());
}

#[test]
fn format_flushes_each_line() {
    let mut w = CountingWriter { data: vec![], flushes: 0 };
    format_macipr(&mut w, "%n-%n", &vec!["1-3".to_string(), "9".to_string()]).unwrap();
    assert_eq!(String::from_utf8(w.data).unwrap(), "1-9\n2-9\n3-9\n");
    assert_eq!(w.flushes, 3);
}

#[test]
fn format_argument_errors_write_nothing() {
    let mut w = CountingWriter { data: vec![], flushes: 0 };
    let e = format_macipr(&mut w, "%m %m", &vec!["1-3".to_string(), "zz".to_string()]).unwrap_err();
    assert_eq!(e.kind, ErrorKind::InvalidAddress(Kind::MacAddr));
    assert!(w.data.is_empty());
}
