use mirams::inet::format_asn_range;
use mirams::inet::parse_ipv4;
use mirams::inet::parse_ipv6;
use mirams::inet::Ipv4Prefix;
use mirams::inet::Ipv6Prefix;

#[test]
fn parse_ipv4_accepts() {
    assert_eq!(parse_ipv4("0.0.0.0"), Some([0, 0, 0, 0]));
    assert_eq!(parse_ipv4("192.168.0.1"), Some([192, 168, 0, 1]));
    assert_eq!(parse_ipv4("255.255.255.255"), Some([255, 255, 255, 255]));
    assert_eq!(parse_ipv4("10.0.0.7"), Some([10, 0, 0, 7]));
}

#[test]
fn parse_ipv4_rejects() {
    assert_eq!(parse_ipv4(""), None);
    assert_eq!(parse_ipv4("1.2.3"), None);
    assert_eq!(parse_ipv4("1.2.3.4.5"), None);
    assert_eq!(parse_ipv4("256.0.0.1"), None);
    assert_eq!(parse_ipv4("01.2.3.4"), None);
    assert_eq!(parse_ipv4("1.2.3."), None);
    assert_eq!(parse_ipv4(".1.2.3"), None);
    assert_eq!(parse_ipv4("1.2.3.x"), None);
    assert_eq!(parse_ipv4("1.2.3.1000"), None);
}

#[test]
fn parse_ipv6_accepts() {
    assert_eq!(parse_ipv6("::"), Some([0u8; 16]));
    assert_eq!(
        parse_ipv6("::1"),
        Some([0, 0, 0, 0, 0, 0, 0, 0, 0, 0, 0, 0, 0, 0, 0, 1])
    );
    assert_eq!(
        parse_ipv6("1::"),
        Some([0, 1, 0, 0, 0, 0, 0, 0, 0, 0, 0, 0, 0, 0, 0, 0])
    );
    assert_eq!(
        parse_ipv6("2001:db8::1"),
        Some([0x20, 0x01, 0x0d, 0xb8, 0, 0, 0, 0, 0, 0, 0, 0, 0, 0, 0, 1])
    );
    assert_eq!(
        parse_ipv6("2001:db8:1:2:3:4:5:6"),
        Some([0x20, 0x01, 0x0d, 0xb8, 0, 1, 0, 2, 0, 3, 0, 4, 0, 5, 0, 6])
    );
    assert_eq!(
        parse_ipv6("ffff:ffff:ffff:ff00::"),
        Some([255, 255, 255, 255, 255, 255, 255, 0, 0, 0, 0, 0, 0, 0, 0, 0])
    );
    assert_eq!(
        parse_ipv6("ABCD::ef01"),
        Some([0xab, 0xcd, 0, 0, 0, 0, 0, 0, 0, 0, 0, 0, 0, 0, 0xef, 0x01])
    );
}

#[test]
fn parse_ipv6_rejects() {
    assert_eq!(parse_ipv6(""), None);
    assert_eq!(parse_ipv6(":"), None);
    assert_eq!(parse_ipv6(":::"), None);
    assert_eq!(parse_ipv6("::1::"), None);
    assert_eq!(parse_ipv6("1:2:3:4:5:6:7"), None);
    assert_eq!(parse_ipv6("1:2:3:4:5:6:7:8:9"), None);
    assert_eq!(parse_ipv6("g::"), None);
    assert_eq!(parse_ipv6("12345::"), None);
    assert_eq!(parse_ipv6(":1:2:3:4:5:6:7"), None);
    assert_eq!(parse_ipv6("1:2:3:4:5:6:7:"), None);
}

#[test]
fn ipv4_prefix_type() {
    let p = Ipv4Prefix::new("192.168.0.0", 16).unwrap();
    assert_eq!(p.prefix_octets(), [192, 168, 0, 0]);
    assert_eq!(p.prefix_len(), 16);
    let q = Ipv4Prefix::new("192.168.64.0", 18).unwrap();
    assert!(p.contains(&q));
    assert!(!q.contains(&p));
    let other = Ipv4Prefix::new("10.0.0.0", 8).unwrap();
    assert!(!p.contains(&other));
    // not a network address at the given length
    assert!(Ipv4Prefix::new("192.168.0.1", 16).is_err());
    // length out of bounds
    assert!(Ipv4Prefix::new("192.168.0.0", 33).is_err());
    assert!(Ipv4Prefix::new("192.168.0.0", -1).is_err());
    // malformed text
    assert!(Ipv4Prefix::new("192.168.0", 16).is_err());
}

#[test]
fn ipv6_prefix_type() {
    let p = Ipv6Prefix::new("2001:db8::", 32).unwrap();
    assert_eq!(p.prefix_len(), 32);
    let q = Ipv6Prefix::new("2001:db8:1::", 48).unwrap();
    assert!(p.contains(&q));
    assert!(!q.contains(&p));
    let other = Ipv6Prefix::new("fd00::", 8).unwrap();
    assert!(!p.contains(&other));
    assert!(Ipv6Prefix::new("2001:db8::1", 32).is_err());
    assert!(Ipv6Prefix::new("2001:db8::", 129).is_err());
    assert!(Ipv6Prefix::new("2001:zz8::", 32).is_err());
}

#[test]
fn format_asn_ranges() {
    assert_eq!(format_asn_range(65000, 65000), "AS65000");
    assert_eq!(format_asn_range(65000, 65199), "AS65000 - AS65199");
    assert_eq!(format_asn_range(0, 0), "AS0");
    assert_eq!(format_asn_range(4294967295, 4294967295), "AS4294967295");
}
