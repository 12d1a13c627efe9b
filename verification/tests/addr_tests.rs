use pazuzu::addr::{
    cidr_string, ipv4_string, ipv4_to_key, normalize_cidr, parse_cidr, parse_cidr_block, parse_ipv4,
    AddrError, Cidr, CidrError, Ipv4,
};

fn ip(a: u8, b: u8, c: u8, d: u8) -> Ipv4 {
    Ipv4 { a, b, c, d }
}

#[test]
fn parses_dotted_quads() {
    assert_eq!(parse_ipv4("10.0.0.1"), Some(ip(10, 0, 0, 1)));
    assert_eq!(parse_ipv4("0.0.0.0"), Some(ip(0, 0, 0, 0)));
    assert_eq!(parse_ipv4("255.255.255.255"), Some(ip(255, 255, 255, 255)));
    assert_eq!(parse_ipv4("192.168.100.7"), Some(ip(192, 168, 100, 7)));
}

#[test]
fn rejects_malformed_addresses() {
    for bad in [
        "", "1.2.3", "1.2.3.4.5", "256.0.0.1", "1.2.3.256", "01.2.3.4", "1.02.3.4", "1..2.3",
        ".1.2.3", "1.2.3.", " 1.2.3.4", "1.2.3.4 ", "+1.2.3.4", "1.2.3.4a", "1.2.3.-4", "0001.2.3.4",
        "1.2.3.4/8", "１.2.3.4", "1000.2.3.4",
    ] {
        assert_eq!(parse_ipv4(bad), None, "{bad:?}");
    }
}

#[test]
fn key_is_native_endian_octets() {
    assert_eq!(ipv4_to_key("10.1.2.3"), Ok(u32::from_ne_bytes([10, 1, 2, 3])));
    assert_eq!(ipv4_to_key("10.1.2.3").unwrap().to_ne_bytes(), [10, 1, 2, 3]);
    assert_eq!(ipv4_to_key("10.1.2"), Err(AddrError::InvalidIpv4));
}

#[test]
fn cidr_keys() {
    let k = parse_cidr("10.0.0.0/8").unwrap();
    assert_eq!(k.prefixlen, 8);
    assert_eq!(k.addr, u32::from_ne_bytes([10, 0, 0, 0]));
    let k = parse_cidr("192.168.1.77/32").unwrap();
    assert_eq!(k.prefixlen, 32);
    assert_eq!(k.addr.to_ne_bytes(), [192, 168, 1, 77]);
    assert_eq!(parse_cidr("0.0.0.0/0").unwrap().prefixlen, 0);
}

#[test]
fn cidr_errors() {
    assert_eq!(parse_cidr("10.0.0.0"), Err(CidrError::MissingSlash));
    assert_eq!(parse_cidr(""), Err(CidrError::MissingSlash));
    assert_eq!(parse_cidr("10.0.0/8"), Err(CidrError::InvalidIp));
    assert_eq!(parse_cidr("/8"), Err(CidrError::InvalidIp));
    assert_eq!(parse_cidr("10.0.0.0/x"), Err(CidrError::InvalidPrefix));
    assert_eq!(parse_cidr("10.0.0.0/"), Err(CidrError::InvalidPrefix));
    assert_eq!(parse_cidr("10.0.0.0/+"), Err(CidrError::InvalidPrefix));
    assert_eq!(parse_cidr("10.0.0.0/-8"), Err(CidrError::InvalidPrefix));
    assert_eq!(parse_cidr("1.2.3.4/5/6"), Err(CidrError::InvalidPrefix));
    assert_eq!(parse_cidr("10.0.0.0/4294967296"), Err(CidrError::InvalidPrefix));
    assert_eq!(parse_cidr("10.0.0.0/4294967295"), Err(CidrError::PrefixTooLarge));
    assert_eq!(parse_cidr("10.0.0.0/33"), Err(CidrError::PrefixTooLarge));
    assert_eq!(parse_cidr("10.0.0.0/ 8"), Err(CidrError::InvalidPrefix));
}

#[test]
fn prefix_accepts_plus_and_leading_zeros() {
    assert_eq!(parse_cidr("10.0.0.0/+8").unwrap().prefixlen, 8);
    assert_eq!(parse_cidr("10.0.0.0/008").unwrap().prefixlen, 8);
    assert_eq!(
        parse_cidr_block("172.16.0.0/0012"),
        Ok(Cidr { addr: ip(172, 16, 0, 0), prefix_len: 12 })
    );
}

#[test]
fn normalizes_cidr_text() {
    assert_eq!(normalize_cidr("10.0.0.0/8").unwrap(), "10.0.0.0/8");
    assert_eq!(normalize_cidr("10.0.0.0/08").unwrap(), "10.0.0.0/8");
    assert_eq!(normalize_cidr("10.0.0.0/+32").unwrap(), "10.0.0.0/32");
    assert_eq!(normalize_cidr("10.0.0.1/0").unwrap(), "10.0.0.1/0");
    assert_eq!(normalize_cidr("010.0.0.0/8"), Err(CidrError::InvalidIp));
}

#[test]
fn normalizing_twice_changes_nothing() {
    for s in ["10.0.0.0/08", "1.2.3.4/+7", "255.255.255.255/32", "0.0.0.0/0000"] {
        let once = normalize_cidr(s).unwrap();
        assert_eq!(normalize_cidr(&once).unwrap(), once);
    }
}

#[test]
fn texts_parse_back() {
    for a in [ip(0, 0, 0, 0), ip(1, 22, 103, 255), ip(100, 10, 9, 0)] {
        let t = ipv4_string(&a);
        assert_eq!(parse_ipv4(&t), Some(a));
    }
    assert_eq!(ipv4_string(&ip(1, 22, 103, 255)), "1.22.103.255");
    let c = Cidr { addr: ip(8, 8, 4, 0), prefix_len: 22 };
    assert_eq!(cidr_string(&c), "8.8.4.0/22");
    assert_eq!(parse_cidr_block(&cidr_string(&c)), Ok(c));
}
