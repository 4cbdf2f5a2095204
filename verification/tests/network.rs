use mmdb_writer::network::Network;

#[test]
fn parse_ipv4() {
    assert_eq!(Network::parse("1.2.3.0/24"), Ok(Network::V4 { addr: 0x0102_0300, prefix: 24 }));
    assert_eq!(Network::parse("10.0.0.1"), Ok(Network::V4 { addr: 0x0A00_0001, prefix: 32 }));
    assert_eq!(Network::parse("0.0.0.0/0"), Ok(Network::V4 { addr: 0, prefix: 0 }));
}

#[test]
fn parse_ipv6() {
    assert_eq!(
        Network::parse("2001:db8::/32"),
        Ok(Network::V6 { addr: 0x2001_0db8_0000_0000_0000_0000_0000_0000, prefix: 32 })
    );
    assert_eq!(Network::parse("::1"), Ok(Network::V6 { addr: 1, prefix: 128 }));
}

#[test]
fn parse_refused() {
    assert_eq!(Network::parse("bad"), Err("invalid address: bad".to_string()));
    assert_eq!(Network::parse("1.2.3.0/33"), Err("invalid address: 1.2.3.0/33".to_string()));
}
