use toytcp::{source_addr, Ipv4Addr, TcpError};

fn parse(text: &str) -> Option<Ipv4Addr> {
    let chars: Vec<char> = text.chars().collect();
    Ipv4Addr::parse(&chars)
}

#[test]
fn dotted_decimal_is_read() {
    assert_eq!(parse("10.0.1.1"), Some(Ipv4Addr::new(10, 0, 1, 1)));
    assert_eq!(parse("10.0.1.1").unwrap().bits, 0x0a00_0101);
    assert_eq!(parse("0.0.0.0"), Some(Ipv4Addr::new(0, 0, 0, 0)));
    assert_eq!(parse("255.255.255.255"), Some(Ipv4Addr::new(255, 255, 255, 255)));
    assert_eq!(parse("192.168.84.31"), Some(Ipv4Addr::new(192, 168, 84, 31)));
}

#[test]
fn every_octet_is_read() {
    for n in 0..=255u8 {
        assert_eq!(parse(&format!("{}.{}.{}.{}", n, 255 - n, n, 9)), Some(Ipv4Addr::new(n, 255 - n, n, 9)));
    }
}

#[test]
fn malformed_addresses_are_refused() {
    for text in [
        "", ".", "1", "1.2", "1.2.3", "1.2.3.", "1.2.3.4.", "1.2.3.4.5", ".1.2.3", "1..2.3", "256.0.0.1",
        "1.2.3.999", "1.2.3.1000", "01.2.3.4", "1.2.3.00", "1.2.3.4 ", " 1.2.3.4", "1.2.3.a", "-1.2.3.4",
        "1.2.3.+4", "1,2,3,4", "1.2.3.٤",
    ] {
        assert_eq!(parse(text), None, "{}", text);
    }
}

#[test]
fn source_address_follows_src() {
    let output = b"10.0.1.1 via 10.0.0.254 dev host1-veth1 src 10.0.0.1 uid 0 \n    cache \n";
    assert_eq!(source_addr(output), Ok(Ipv4Addr::new(10, 0, 0, 1)));
    assert_eq!(source_addr(b"src\t192.168.0.7"), Ok(Ipv4Addr::new(192, 168, 0, 7)));
}

#[test]
fn first_src_counts() {
    assert_eq!(source_addr(b"xsrc 1.1.1.1 src 2.2.2.2 src 3.3.3.3"), Ok(Ipv4Addr::new(2, 2, 2, 2)));
    assert_eq!(source_addr(b"src src 1.1.1.1"), Err(TcpError::BadSourceAddr));
}

#[test]
fn unicode_space_around_the_text_is_left_out() {
    let output = "\u{3000}src 1.2.3.4\u{85}\u{b}";
    assert_eq!(source_addr(output.as_bytes()), Ok(Ipv4Addr::new(1, 2, 3, 4)));
    let inner = "src\u{3000}1.2.3.4";
    assert_eq!(source_addr(inner.as_bytes()), Err(TcpError::NoSourceAddr));
}

#[test]
fn missing_source_address() {
    assert_eq!(source_addr(b""), Err(TcpError::NoSourceAddr));
    assert_eq!(source_addr(b"   \n"), Err(TcpError::NoSourceAddr));
    assert_eq!(source_addr(b"10.0.1.1 dev eth0"), Err(TcpError::NoSourceAddr));
    assert_eq!(source_addr(b"10.0.1.1 dev eth0 src "), Err(TcpError::NoSourceAddr));
}

#[test]
fn unreadable_source_address() {
    assert_eq!(source_addr(b"src 10.0.0"), Err(TcpError::BadSourceAddr));
    assert_eq!(source_addr(b"src fe80::1"), Err(TcpError::BadSourceAddr));
}

#[test]
fn output_that_is_not_utf8() {
    assert_eq!(source_addr(b"src 1.2.3.4 \xff"), Err(TcpError::RouteNotUtf8));
    assert_eq!(source_addr(&[0xc0, 0x80]), Err(TcpError::RouteNotUtf8));
}
