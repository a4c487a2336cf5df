use macipr::{AddrRange, AddrRanges, IPv4Addr, MacAddr, ResettableIterator};

#[test]
fn addr_range_from_str_with_2macs() {
    assert_eq!(
        AddrRange::<MacAddr>::from_str("00:00:00:00:00:00-00:00:00:00:00:10"),
        Ok(AddrRange::new(
            MacAddr::new(0, 0, 0, 0, 0, 0),
            MacAddr::new(0, 0, 0, 0, 0, 0x10)
        ))
    );

    assert_eq!(
        AddrRange::<MacAddr>::from_str("10-20"),
        Ok(AddrRange::new(
            MacAddr::new(0, 0, 0, 0, 0, 0x0a),
            MacAddr::new(0, 0, 0, 0, 0, 0x14)
        ))
    );

    assert_eq!(
        AddrRange::<MacAddr>::from_str("100-11:22:33:44:55:66"),
        Ok(AddrRange::new(
            MacAddr::new(0, 0, 0, 0, 0, 0x64),
            MacAddr::new(0x11, 0x22, 0x33, 0x44, 0x55, 0x66)
        ))
    );
}

#[test]
fn addr_range_from_str_with_mac_only() {
    assert_eq!(
        AddrRange::<MacAddr>::from_str("aa:bb:cc:dd:ee:ff"),
        Ok(AddrRange::new(
            MacAddr::new(0xaa, 0xbb, 0xcc, 0xdd, 0xee, 0xff),
            MacAddr::new(0xaa, 0xbb, 0xcc, 0xdd, 0xee, 0xff),
        ))
    );

    assert_eq!(
        AddrRange::<MacAddr>::from_str("16"),
        Ok(AddrRange::new(
            MacAddr::new(0, 0, 0, 0, 0, 0x010),
            MacAddr::new(0, 0, 0, 0, 0, 0x010),
        ))
    );
}

#[test]
fn addr_range_from_str_err() {
    assert_eq!(
        AddrRange::<MacAddr>::from_str("00:11:22:33:44:55-"),
        Err(())
    );
    assert_eq!(AddrRange::<MacAddr>::from_str("0-1-2"), Err(()));
}

#[test]
fn addr_range_from_str_with_ipv4() {
    assert_eq!(
        AddrRange::<IPv4Addr>::from_str("192.168.0.1-192.168.0.10"),
        Ok(AddrRange::new(
            IPv4Addr::new(192, 168, 0, 1),
            IPv4Addr::new(192, 168, 0, 10)
        ))
    );
}

#[test]
fn addr_range_from_str_with_plus() {
    assert_eq!(
        AddrRange::<IPv4Addr>::from_str("192.168.0.1+10"),
        Ok(AddrRange::new(
            IPv4Addr::new(192, 168, 0, 1),
            IPv4Addr::new(192, 168, 0, 11)
        ))
    );
}

#[test]
fn addr_range_from_str_with_plus_descending() {
    assert_eq!(
        AddrRange::<IPv4Addr>::from_str("192.168.0.10+-9"),
        Ok(AddrRange::new(
            IPv4Addr::new(192, 168, 0, 10),
            IPv4Addr::new(192, 168, 0, 1)
        ))
    );
}

#[test]
fn addr_range_from_str_with_plus_err() {
    assert_eq!(
        AddrRange::<IPv4Addr>::from_str("192.168.0.1+192.168.0.10"),
        Err(())
    );
}

#[test]
fn addr_range_iter_ascending() {
    let range = AddrRange::<MacAddr>::from_str("10-12").unwrap();
    let mut iter = range.into_iter();
    assert_eq!(iter.next(), Some(MacAddr::new(0, 0, 0, 0, 0, 10)));
    assert_eq!(iter.next(), Some(MacAddr::new(0, 0, 0, 0, 0, 11)));
    assert_eq!(iter.next(), Some(MacAddr::new(0, 0, 0, 0, 0, 12)));
    assert_eq!(iter.next(), None);
}

#[test]
fn addr_range_iter_descending() {
    let range = AddrRange::<MacAddr>::from_str("12-10").unwrap();
    let mut iter = range.into_iter();
    assert_eq!(iter.next(), Some(MacAddr::new(0, 0, 0, 0, 0, 12)));
    assert_eq!(iter.next(), Some(MacAddr::new(0, 0, 0, 0, 0, 11)));
    assert_eq!(iter.next(), Some(MacAddr::new(0, 0, 0, 0, 0, 10)));
    assert_eq!(iter.next(), None);
}

#[test]
fn addr_range_iter_overflow() {
    let range = AddrRange::<IPv4Addr>::from_str("255.255.255.254+3").unwrap();
    let mut iter = range.into_iter();
    assert_eq!(iter.next(), Some(IPv4Addr::new(255, 255, 255, 254)));
    assert_eq!(iter.next(), Some(IPv4Addr::new(255, 255, 255, 255)));
    assert_eq!(iter.next(), Some(IPv4Addr::new(0, 0, 0, 0)));
    assert_eq!(iter.next(), Some(IPv4Addr::new(0, 0, 0, 1)));
    assert_eq!(iter.next(), None);
}

#[test]
fn addr_range_iter_underflow() {
    let range = AddrRange::<IPv4Addr>::from_str("0.0.0.1+-3").unwrap();
    let mut iter = range.into_iter();
    assert_eq!(iter.next(), Some(IPv4Addr::new(0, 0, 0, 1)));
    assert_eq!(iter.next(), Some(IPv4Addr::new(0, 0, 0, 0)));
    assert_eq!(iter.next(), Some(IPv4Addr::new(255, 255, 255, 255)));
    assert_eq!(iter.next(), Some(IPv4Addr::new(255, 255, 255, 254)));
    assert_eq!(iter.next(), None);
}

#[test]
fn addr_range_ranges_iter_one_element() {
    let range = AddrRange::<IPv4Addr>::from_str("1-3").unwrap();
    let mut ranges = AddrRanges::<IPv4Addr>::new();
    ranges.push(range.into_iter());
    let mut ranges_iter = ranges.into_iter();
    assert_eq!(ranges_iter.next(), Some(vec![IPv4Addr::new(0, 0, 0, 1)]));
    assert_eq!(ranges_iter.next(), Some(vec![IPv4Addr::new(0, 0, 0, 2)]));
    assert_eq!(ranges_iter.next(), Some(vec![IPv4Addr::new(0, 0, 0, 3)]));
    assert_eq!(ranges_iter.next(), None);
}

#[test]
fn addr_range_ranges_iter_3_elements() {
    let mut ranges = AddrRanges::<IPv4Addr>::new();
    ranges.push(AddrRange::<IPv4Addr>::from_str("1-3").unwrap().into_iter());
    ranges.push(AddrRange::<IPv4Addr>::from_str("2-6").unwrap().into_iter());
    ranges.push(AddrRange::<IPv4Addr>::from_str("7-7").unwrap().into_iter());
    let mut ranges_iter = ranges.into_iter();
    assert_eq!(
        ranges_iter.next(),
        Some(vec![
            IPv4Addr::new(0, 0, 0, 1),
            IPv4Addr::new(0, 0, 0, 2),
            IPv4Addr::new(0, 0, 0, 7),
        ])
    );
    assert_eq!(
        ranges_iter.next(),
        Some(vec![
            IPv4Addr::new(0, 0, 0, 2),
            IPv4Addr::new(0, 0, 0, 3),
            IPv4Addr::new(0, 0, 0, 7),
        ])
    );
    assert_eq!(
        ranges_iter.next(),
        Some(vec![
            IPv4Addr::new(0, 0, 0, 3),
            IPv4Addr::new(0, 0, 0, 4),
            IPv4Addr::new(0, 0, 0, 7),
        ])
    );
    assert_eq!(
        ranges_iter.next(),
        Some(vec![
            IPv4Addr::new(0, 0, 0, 1),
            IPv4Addr::new(0, 0, 0, 5),
            IPv4Addr::new(0, 0, 0, 7),
        ])
    );
    assert_eq!(
        ranges_iter.next(),
        Some(vec![
            IPv4Addr::new(0, 0, 0, 2),
            IPv4Addr::new(0, 0, 0, 6),
            IPv4Addr::new(0, 0, 0, 7),
        ])
    );
    assert_eq!(ranges_iter.next(), None);
}

#[test]
fn range_number_wraps_at_128_bits() {
    let range = AddrRange::<u128>::from_str("340282366920938463463374607431768211455+1").unwrap();
    let mut iter = range.into_iter();
    assert_eq!(iter.next(), Some(u128::MAX));
    assert_eq!(iter.next(), Some(0));
    assert_eq!(iter.next(), None);
}

#[test]
fn range_offset_too_large_for_family() {
    assert_eq!(AddrRange::<IPv4Addr>::from_str("1+4294967296"), Err(()));
    assert!(AddrRange::<MacAddr>::from_str("1+4294967296").is_ok());
    assert_eq!(AddrRange::<MacAddr>::from_str("1+"), Err(()));
    assert_eq!(AddrRange::<MacAddr>::from_str("1+-"), Err(()));
}

#[test]
fn range_cardinality_of_wrapping_ranges() {
    let mut iter = AddrRange::<MacAddr>::from_str("ff:ff:ff:ff:ff:fe+3").unwrap().into_iter();
    let mut n = 0;
    while iter.next().is_some() {
        n += 1;
    }
    assert_eq!(n, 4);
    iter.reset();
    assert_eq!(iter.next(), Some(MacAddr::new(0xff, 0xff, 0xff, 0xff, 0xff, 0xfe)));
}
