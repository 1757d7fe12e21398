use mirams::inet::parse_ipv6;
use mirams::ipv4::ipv4_broadcast_address;
use mirams::ipv4::ipv4_network_address;
use mirams::ipv4::ipv4_subnet_mask;
use mirams::ipv4::ipv4_wildcard_mask;
use mirams::ipv6::ipv6_broadcast_address;
use mirams::ipv6::ipv6_network_address;
use mirams::ipv6::ipv6_subnet_mask;
use mirams::ipv6::ipv6_wildcard_mask;

fn v6(text: &str) -> [u8; 16] {
    parse_ipv6(text).unwrap()
}

#[test]
fn ipv4_masks() {
    let mask = ipv4_subnet_mask(20);
    assert_eq!(mask, [255, 255, 240, 0]);
    let mask = ipv4_subnet_mask(16);
    assert_eq!(mask, [255, 255, 0, 0]);
    let mask = ipv4_subnet_mask(8);
    assert_eq!(mask, [255, 0, 0, 0]);
    let mask = ipv4_subnet_mask(32);
    assert_eq!(mask, [255, 255, 255, 255]);
    let mask = ipv4_wildcard_mask(20);
    assert_eq!(mask, [0, 0, 15, 255]);
    let mask = ipv4_wildcard_mask(16);
    assert_eq!(mask, [0, 0, 255, 255]);
    let mask = ipv4_wildcard_mask(8);
    assert_eq!(mask, [0, 255, 255, 255]);
    let mask = ipv4_wildcard_mask(32);
    assert_eq!(mask, [0, 0, 0, 0]);

    let network = ipv4_network_address([192, 168, 1, 1], 24);
    assert_eq!(network, [192, 168, 1, 0]);
    let network = ipv4_network_address([192, 168, 1, 1], 16);
    assert_eq!(network, [192, 168, 0, 0]);
    let network = ipv4_network_address([192, 168, 1, 1], 8);
    assert_eq!(network, [192, 0, 0, 0]);
    let network = ipv4_network_address([192, 168, 1, 1], 32);
    assert_eq!(network, [192, 168, 1, 1]);

    let broadcast = ipv4_broadcast_address([192, 168, 1, 1], 24);
    assert_eq!(broadcast, [192, 168, 1, 255]);
    let broadcast = ipv4_broadcast_address([192, 168, 1, 1], 16);
    assert_eq!(broadcast, [192, 168, 255, 255]);
    let broadcast = ipv4_broadcast_address([192, 168, 1, 1], 8);
    assert_eq!(broadcast, [192, 255, 255, 255]);
    let broadcast = ipv4_broadcast_address([192, 168, 1, 1], 32);
    assert_eq!(broadcast, [192, 168, 1, 1]);
}

#[test]
fn ipv6_masks() {
    let mask = ipv6_subnet_mask(56);
    let assumed_mask = v6("ffff:ffff:ffff:ff00::");
    assert_eq!(mask, assumed_mask);

    let mask = ipv6_wildcard_mask(80);
    let assumed_mask = v6("::ffff:ffff:ffff");
    assert_eq!(mask, assumed_mask);

    let network = ipv6_network_address(v6("2001:db8::1"), 64);
    let assumed_network = v6("2001:db8::");
    assert_eq!(network, assumed_network);

    let broadcast = ipv6_broadcast_address(v6("2001:db8::1"), 64);
    let assumed_broadcast = v6("2001:db8::ffff:ffff:ffff:ffff");
    assert_eq!(broadcast, assumed_broadcast);
}
