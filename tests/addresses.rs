use macipr::{Addr, IPv4Addr, IPv6Addr, MacAddr, Rangeable};
use std::cmp::Ordering;

#[test]
fn mac_addr_display() {
    let mac1 = MacAddr::new(0, 1, 2, 3, 4, 5);
    assert_eq!(mac1.to_string(), "00:01:02:03:04:05");

    let mac2 = MacAddr::new(0xaa, 0xbb, 0xcc, 0xdd, 0xee, 0xff);
    assert_eq!(mac2.to_string(), "aa:bb:cc:dd:ee:ff");
}

#[test]
fn mac_addr_ordering() {
    let mac1 = MacAddr::new(0, 1, 2, 3, 4, 5);
    let mac2 = MacAddr::new(0, 1, 2, 3, 4, 6);
    assert!(mac1 < mac2);
    assert!(mac2 > mac1);

    assert!(MacAddr::new(1, 0, 0, 0, 0, 0) > MacAddr::new(0, 0xff, 0xff, 0xff, 0xff, 0xff));
    assert!(MacAddr::new(0, 1, 0, 0, 0, 0) > MacAddr::new(0, 0, 0xff, 0xff, 0xff, 0xff));
    assert!(MacAddr::new(0, 0, 1, 0, 0, 0) > MacAddr::new(0, 0, 0, 0xff, 0xff, 0xff));
    assert!(MacAddr::new(0, 0, 0, 1, 0, 0) > MacAddr::new(0, 0, 0, 0, 0xff, 0xff));
    assert!(MacAddr::new(0, 0, 0, 0, 1, 0) > MacAddr::new(0, 0, 0, 0, 0, 0xff));
    assert!(MacAddr::new(0, 0, 0, 0, 0, 1) > MacAddr::new(0, 0, 0, 0, 0, 0));
}

#[test]
fn mac_addr_add() {
    let mac1 = MacAddr::new(0, 1, 2, 3, 4, 5);
    assert_eq!(mac1.add_offset(1).to_string(), "00:01:02:03:04:06");

    let mac2 = MacAddr::new(9, 10, 11, 12, 13, 14);
    assert_eq!(mac2.add_offset(0x010101010101).to_string(), "0a:0b:0c:0d:0e:0f");

    let mac3 = MacAddr::new(0xff, 0xff, 0xff, 0xff, 0xff, 0xff);
    assert_eq!(mac3.add_offset(1).to_string(), "00:00:00:00:00:00"); // overflow
}

#[test]
fn mac_addr_sub() {
    let mac1 = MacAddr::new(0, 1, 2, 3, 4, 5);
    assert_eq!(mac1.sub_offset(1).to_string(), "00:01:02:03:04:04");

    let mac2 = MacAddr::new(9, 10, 11, 12, 13, 14);
    assert_eq!(mac2.sub_offset(0x010101010101).to_string(), "08:09:0a:0b:0c:0d");

    let mac3 = MacAddr::new(0, 0, 0, 0, 0, 0);
    assert_eq!(mac3.sub_offset(1).to_string(), "ff:ff:ff:ff:ff:ff"); // underflow
}

#[test]
fn mac_addr_try_from() {
    assert_eq!(
        MacAddr::try_from("00:11:22:33:44:55"),
        Ok(MacAddr::new(0, 0x11, 0x22, 0x33, 0x44, 0x55))
    );

    assert_eq!(
        MacAddr::try_from("aa:bb:cc:dd:ee:ff"),
        Ok(MacAddr::new(0xaa, 0xbb, 0xcc, 0xdd, 0xee, 0xff))
    );
}

#[test]
fn mac_addr_try_from_number() {
    assert_eq!(MacAddr::try_from("0"), Ok(MacAddr::new(0, 0, 0, 0, 0, 0)));

    assert_eq!(
        MacAddr::try_from("100000"),
        Ok(MacAddr::new(0, 0, 0, 0x01, 0x86, 0xa0))
    );

    assert_eq!(
        MacAddr::try_from("281474976710655"), // 0xffffffffffff
        Ok(MacAddr::new(0xff, 0xff, 0xff, 0xff, 0xff, 0xff))
    );
}

#[test]
fn mac_addr_try_from_err() {
    assert_eq!(MacAddr::try_from("00:11:22:33:44:5"), Err(()));

    assert_eq!(MacAddr::try_from("aa:bb:cc:dd:ee:0ff"), Err(()));

    assert_eq!(MacAddr::try_from("aa:bb:cc:dd:ee:fg"), Err(()));

    assert_eq!(
        MacAddr::try_from("281474976710656"), // 0xffffffffffff + 1
        Err(())
    );

    assert_eq!(MacAddr::try_from("aabbccddeeff"), Err(()));
}

#[test]
fn ipv4addr_add() {
    assert_eq!(IPv4Addr::new(0, 0, 0, 0).add_offset(1), IPv4Addr::new(0, 0, 0, 1));
    assert_eq!(
        IPv4Addr::new(10, 11, 12, 13).add_offset(0x01010101),
        IPv4Addr::new(11, 12, 13, 14)
    );
    assert_eq!(
        IPv4Addr::new(255, 255, 255, 255).add_offset(1),
        IPv4Addr::new(0, 0, 0, 0)
    );
}

#[test]
fn ipv4addr_sub() {
    assert_eq!(
        IPv4Addr::new(0, 0, 0, 0).sub_offset(1),
        IPv4Addr::new(255, 255, 255, 255)
    );
    assert_eq!(
        IPv4Addr::new(10, 11, 12, 13).sub_offset(0x01010101),
        IPv4Addr::new(9, 10, 11, 12)
    );
    assert_eq!(
        IPv4Addr::new(255, 255, 255, 255).sub_offset(1),
        IPv4Addr::new(255, 255, 255, 254)
    );
}

#[test]
fn ipv4addr_from_str() {
    assert_eq!(IPv4Addr::from_str("0.0.0.0"), Ok(IPv4Addr::new(0, 0, 0, 0)));

    assert_eq!(
        IPv4Addr::from_str("192.168.10.1"),
        Ok(IPv4Addr::new(192, 168, 10, 1))
    );

    assert_eq!(
        IPv4Addr::from_str("255.255.255.255"),
        Ok(IPv4Addr::new(255, 255, 255, 255))
    );
}

#[test]
fn ipv4addr_from_str_number() {
    assert_eq!(IPv4Addr::from_str("0"), Ok(IPv4Addr::new(0, 0, 0, 0)));

    assert_eq!(
        IPv4Addr::from_str("100000"),
        Ok(IPv4Addr::new(0, 0x01, 0x86, 0xa0))
    );

    assert_eq!(
        IPv4Addr::from_str("4294967295"), // 0xffffffff
        Ok(IPv4Addr::new(255, 255, 255, 255))
    );
}

#[test]
fn ipv4addr_from_str_err() {
    assert_eq!(IPv4Addr::from_str("192.168.0."), Err(()));

    assert_eq!(IPv4Addr::from_str("10.0.0.256"), Err(()));

    assert_eq!(IPv4Addr::from_str("172.a.0.1"), Err(()));

    assert_eq!(
        IPv4Addr::from_str("4294967296"), // 0xffffffff + 1
        Err(())
    );

    assert_eq!(IPv4Addr::from_str("192168000001"), Err(()));
}

#[test]
fn ipv6addr_add() {
    assert_eq!(
        IPv6Addr::new(0, 0, 0, 0, 0, 0, 0, 0).add_offset(1),
        IPv6Addr::new(0, 0, 0, 0, 0, 0, 0, 1)
    );
    assert_eq!(
        IPv6Addr::new(10, 11, 12, 13, 14, 15, 16, 17).add_offset(0x00010001000100010001000100010001),
        IPv6Addr::new(11, 12, 13, 14, 15, 16, 17, 18)
    );
    assert_eq!(
        IPv6Addr::new(0xffff, 0xffff, 0xffff, 0xffff, 0xffff, 0xffff, 0xffff, 0xffff).add_offset(1),
        IPv6Addr::new(0, 0, 0, 0, 0, 0, 0, 0)
    );
}

#[test]
fn ipv6addr_sub() {
    assert_eq!(
        IPv6Addr::new(0, 0, 0, 0, 0, 0, 0, 0).sub_offset(1),
        IPv6Addr::new(0xffff, 0xffff, 0xffff, 0xffff, 0xffff, 0xffff, 0xffff, 0xffff)
    );
    assert_eq!(
        IPv6Addr::new(10, 11, 12, 13, 14, 15, 16, 17).sub_offset(0x00010001000100010001000100010001),
        IPv6Addr::new(9, 10, 11, 12, 13, 14, 15, 16)
    );
    assert_eq!(
        IPv6Addr::new(0xffff, 0xffff, 0xffff, 0xffff, 0xffff, 0xffff, 0xffff, 0xffff).sub_offset(1),
        IPv6Addr::new(0xffff, 0xffff, 0xffff, 0xffff, 0xffff, 0xffff, 0xffff, 0xfffe)
    );
}

#[test]
fn ipv6addr_from_str() {
    assert_eq!(
        IPv6Addr::from_str("::"),
        Ok(IPv6Addr::new(0, 0, 0, 0, 0, 0, 0, 0))
    );

    assert_eq!(
        IPv6Addr::from_str("fe80::1"),
        Ok(IPv6Addr::new(0xfe80, 0, 0, 0, 0, 0, 0, 1))
    );

    assert_eq!(
        IPv6Addr::from_str("ffff:ffff:ffff:ffff:ffff:ffff:ffff:ffff"),
        Ok(IPv6Addr::new(
            0xffff, 0xffff, 0xffff, 0xffff, 0xffff, 0xffff, 0xffff, 0xffff
        ))
    );
}

#[test]
fn ipv6addr_from_str_number() {
    assert_eq!(
        IPv6Addr::from_str("0"),
        Ok(IPv6Addr::new(0, 0, 0, 0, 0, 0, 0, 0))
    );

    assert_eq!(
        IPv6Addr::from_str("100000"),
        Ok(IPv6Addr::new(0, 0, 0, 0, 0, 0, 0x01, 0x86a0))
    );

    assert_eq!(
        IPv6Addr::from_str("340282366920938463463374607431768211455"), // 0xffffffffffffffffffffffffffffffffffff
        Ok(IPv6Addr::new(
            0xffff, 0xffff, 0xffff, 0xffff, 0xffff, 0xffff, 0xffff, 0xffff
        ))
    );
}

#[test]
fn ipv6addr_from_str_err() {
    assert_eq!(IPv6Addr::from_str("::0::1"), Err(()));

    assert_eq!(IPv6Addr::from_str("::10000"), Err(()));

    assert_eq!(IPv6Addr::from_str("::fgff"), Err(()));

    assert_eq!(
        IPv6Addr::from_str("340282366920938463463374607431768211456"), // 0xffffffffffffffffffffffffffffffffffff + 1
        Err(())
    );

    assert_eq!(IPv6Addr::from_str("ff801"), Err(()));
}

#[test]
fn ipv6addr_text_forms() {
    let a = IPv6Addr::new(0x2001, 0xdb8, 0, 0, 1, 0, 0, 1);
    assert_eq!(a.to_string(), "2001:db8::1:0:0:1");
    assert_eq!(a.to_full_string(), "2001:0db8:0000:0000:0001:0000:0000:0001");
    assert_eq!(IPv6Addr::new(1, 0, 2, 3, 4, 5, 6, 7).to_string(), "1:0:2:3:4:5:6:7");
    assert_eq!(IPv6Addr::new(0, 0, 0, 0, 0, 0, 0, 0).to_string(), "::");
    assert_eq!(IPv6Addr::new(0, 0, 0, 0, 0, 0xffff, 0x0a00, 0x0001).to_string(), "::ffff:10.0.0.1");
    assert_eq!(IPv6Addr::from_str("1:2:3:4:5:6:1.2.3.4"), Ok(IPv6Addr::new(1, 2, 3, 4, 5, 6, 0x0102, 0x0304)));
    assert_eq!(IPv6Addr::from_str("1:2:3:4:5:6:7::"), Ok(IPv6Addr::new(1, 2, 3, 4, 5, 6, 7, 0)));
    assert_eq!(IPv6Addr::from_str("1.2.3.4::"), Err(()));
    assert_eq!(IPv6Addr::from_str("1:2:3:4:5:6:7:8::"), Err(()));
}

#[test]
fn ipv4addr_text_forms() {
    assert_eq!(IPv4Addr::new(10, 0, 200, 7).to_string(), "10.0.200.7");
    assert_eq!(IPv4Addr::from_str("01.2.3.4"), Err(()));
    assert_eq!(IPv4Addr::from_str("1.2.3.4.5"), Err(()));
}

#[test]
fn parse_display_round_trip() {
    for v in [0u64, 1, 0x0102_0304_0506, 0xffff_ffff_ffff] {
        let m = MacAddr::from_u64(v);
        assert_eq!(MacAddr::try_from(m.to_string().as_str()), Ok(m));
    }
    for v in [0u32, 1, 0x0a00_0001, u32::MAX] {
        let a = IPv4Addr::from_u32(v);
        assert_eq!(IPv4Addr::from_str(a.to_string().as_str()), Ok(a));
    }
    for v in [0u128, 1, 0xfe80 << 112, u128::MAX, 0xffff_0a00_0001] {
        let a = IPv6Addr::from_u128(v);
        assert_eq!(IPv6Addr::from_str(a.to_string().as_str()), Ok(a));
        assert_eq!(IPv6Addr::from_str(a.to_full_string().as_str()), Ok(a));
    }
}

#[test]
fn addr_compares_within_a_family() {
    let a = Addr::Number(5);
    let b = Addr::Number(7);
    assert_eq!(a.partial_cmp(&b), Some(Ordering::Less));
    assert_eq!(b.partial_cmp(&a), Some(Ordering::Greater));
    assert_eq!(a.partial_cmp(&a), Some(Ordering::Equal));
    assert_eq!(a.partial_cmp(&Addr::IPv4(IPv4Addr::new(0, 0, 0, 5))), None);
    assert_eq!(Addr::Number(12).to_string(), "12");
    assert_eq!(Addr::Mac(MacAddr::new(0, 0, 0, 0, 0, 1)).to_full_string(), None);
}
