use zipserve::address::{AddrParseError, SocketAddress};

fn parse(s: &str) -> Result<SocketAddress, AddrParseError> {
    SocketAddress::from_str(s)
}

fn display(s: &str) -> String {
    parse(s).unwrap().to_display_string()
}

#[test]
fn parses_ipv4_form() {
    match parse("127.0.0.1:8080") {
        Ok(SocketAddress::IPV4(e)) => {
            assert_eq!((e.a, e.b, e.c, e.d, e.port), (127, 0, 0, 1, 8080));
        }
        _ => panic!("expected an IPv4 address"),
    }
}

#[test]
fn parses_bare_port_as_unspecified_ipv4() {
    match parse(":80") {
        Ok(SocketAddress::IPV4(e)) => {
            assert_eq!((e.a, e.b, e.c, e.d, e.port), (0, 0, 0, 0, 80));
        }
        _ => panic!("expected an IPv4 address"),
    }
}

#[test]
fn parses_full_ipv6_form() {
    match parse("[1:2:3:4:5:6:7:8]:443") {
        Ok(SocketAddress::IPV6(e)) => {
            assert_eq!(e.groups, vec![1, 2, 3, 4, 5, 6, 7, 8]);
            assert_eq!(e.port, 443);
        }
        _ => panic!("expected an IPv6 address"),
    }
}

#[test]
fn parses_compressed_ipv6_forms() {
    match parse("[::1]:80") {
        Ok(SocketAddress::IPV6(e)) => {
            assert_eq!(e.groups, vec![0, 0, 0, 0, 0, 0, 0, 1]);
            assert_eq!(e.port, 80);
        }
        _ => panic!("expected an IPv6 address"),
    }
    match parse("[fe80::abcd]:1234") {
        Ok(SocketAddress::IPV6(e)) => {
            assert_eq!(e.groups, vec![0xfe80, 0, 0, 0, 0, 0, 0, 0xabcd]);
            assert_eq!(e.port, 1234);
        }
        _ => panic!("expected an IPv6 address"),
    }
    match parse("[1:2::7:8]:9") {
        Ok(SocketAddress::IPV6(e)) => {
            assert_eq!(e.groups, vec![1, 2, 0, 0, 0, 0, 7, 8]);
        }
        _ => panic!("expected an IPv6 address"),
    }
}

#[test]
fn parses_unix_form() {
    match parse("unix:/tmp/server.sock") {
        Ok(SocketAddress::UnixDomainSocket(p)) => assert_eq!(p, "/tmp/server.sock"),
        _ => panic!("expected a filesystem-socket address"),
    }
}

#[test]
fn rejects_malformed_addresses() {
    for bad in [
        "",
        "unix:",
        "uni",
        "unknown",
        "1.2.3.4",
        "1.2.3:80",
        "1.2.3.4.5:80",
        "256.1.1.1:80",
        "1.2.3.4:65536",
        "1.2.3.4:",
        ":",
        ":99999",
        ":0x50",
        "[::1]",
        "[::1]80",
        "[1:2:3]:80",
        "[1::2::3]:80",
        "[:::]:80",
        "[1:2:3:4:5:6:7:8:9]:80",
        "[12345::1]:80",
        "[g::1]:80",
        "-1.2.3.4:80",
        " 1.2.3.4:80",
    ] {
        assert!(parse(bad).is_err(), "{:?} should be rejected", bad);
    }
}

#[test]
fn display_is_canonical() {
    assert_eq!(display("127.0.0.1:8080"), "127.0.0.1:8080");
    assert_eq!(display("007.008.009.010:00080"), "7.8.9.10:80");
    assert_eq!(display(":80"), "0.0.0.0:80");
    assert_eq!(display("[::1]:80"), "[0:0:0:0:0:0:0:1]:80");
    assert_eq!(display("[FE80::ABCD]:1"), "[fe80:0:0:0:0:0:0:abcd]:1");
    assert_eq!(display("unix:/run/s.sock"), "unix:/run/s.sock");
}

#[test]
fn parse_display_parse_is_idempotent() {
    for s in [
        "127.0.0.1:8080",
        ":80",
        "0.0.0.0:0",
        "255.255.255.255:65535",
        "[1:2:3:4:5:6:7:8]:443",
        "[::]:80",
        "[::1]:80",
        "[fe80::1]:9000",
        "[AB:0:0:0:0:0:CD:EF]:1",
        "unix:/tmp/x.sock",
        "unix:relative/path",
    ] {
        let once = display(s);
        let twice = parse(&once).unwrap().to_display_string();
        assert_eq!(once, twice, "display of {:?} must be a fixed point", s);
    }
}

#[test]
fn parse_error_carries_its_message() {
    let err = parse("nonsense").unwrap_err();
    assert_eq!(err.message(), "invalid Socket address syntax");
}
