use liveness::address::{parse_ipv4, parse_ipv6, SocketAddress};

fn v4(a: u8, b: u8, c: u8, d: u8, port: u16) -> Option<SocketAddress> {
    Some(SocketAddress::V4 { octets: [a, b, c, d], port })
}

fn v6(segments: [u16; 8], scope_id: u32, port: u16) -> Option<SocketAddress> {
    Some(SocketAddress::V6 { segments, scope_id, port })
}

#[test]
fn reads_a_dotted_quad_with_port() {
    assert_eq!(SocketAddress::parse("127.0.0.1:3000"), v4(127, 0, 0, 1, 3000));
    assert_eq!(SocketAddress::parse("0.0.0.0:8080"), v4(0, 0, 0, 0, 8080));
    assert_eq!(SocketAddress::parse("255.255.255.255:65535"), v4(255, 255, 255, 255, 65535));
    assert_eq!(SocketAddress::parse("192.168.1.20:0"), v4(192, 168, 1, 20, 0));
}

#[test]
fn port_may_carry_leading_zeros() {
    assert_eq!(SocketAddress::parse("10.0.0.1:0080"), v4(10, 0, 0, 1, 80));
    assert_eq!(SocketAddress::parse("10.0.0.1:000000000000000000443"), v4(10, 0, 0, 1, 443));
}

#[test]
fn port_above_sixteen_bits_is_refused() {
    assert_eq!(SocketAddress::parse("10.0.0.1:65536"), None);
    assert_eq!(SocketAddress::parse("10.0.0.1:99999999999999999999"), None);
}

#[test]
fn port_is_required() {
    assert_eq!(SocketAddress::parse("127.0.0.1"), None);
    assert_eq!(SocketAddress::parse("127.0.0.1:"), None);
    assert_eq!(SocketAddress::parse("[::1]"), None);
    assert_eq!(SocketAddress::parse(":80"), None);
}

#[test]
fn octets_are_strict() {
    assert_eq!(SocketAddress::parse("256.0.0.1:80"), None);
    assert_eq!(SocketAddress::parse("01.0.0.1:80"), None);
    assert_eq!(SocketAddress::parse("1.0.0.00:80"), None);
    assert_eq!(SocketAddress::parse("1.0.0:80"), None);
    assert_eq!(SocketAddress::parse("1.0.0.0.0:80"), None);
    assert_eq!(SocketAddress::parse("1..0.0:80"), None);
    assert_eq!(SocketAddress::parse("1.0.0.0.:80"), None);
    assert_eq!(SocketAddress::parse("1000.0.0.1:80"), None);
    assert_eq!(SocketAddress::parse("a.0.0.1:80"), None);
}

#[test]
fn stray_text_is_refused() {
    assert_eq!(SocketAddress::parse(""), None);
    assert_eq!(SocketAddress::parse("not-an-address"), None);
    assert_eq!(SocketAddress::parse("localhost:3000"), None);
    assert_eq!(SocketAddress::parse(" 127.0.0.1:3000"), None);
    assert_eq!(SocketAddress::parse("127.0.0.1:3000 "), None);
    assert_eq!(SocketAddress::parse("127.0.0.1:+80"), None);
    assert_eq!(SocketAddress::parse("127.0.0.1:80:90"), None);
    assert_eq!(SocketAddress::parse("127.0.0.1:8o"), None);
    assert_eq!(SocketAddress::parse("127.0.0.\u{661}:80"), None);
}

#[test]
fn reads_a_bracketed_ipv6_address() {
    assert_eq!(SocketAddress::parse("[::1]:3000"), v6([0, 0, 0, 0, 0, 0, 0, 1], 0, 3000));
    assert_eq!(SocketAddress::parse("[::]:80"), v6([0; 8], 0, 80));
    assert_eq!(
        SocketAddress::parse("[2001:db8:85a3:0:0:8a2e:370:7334]:443"),
        v6([0x2001, 0xdb8, 0x85a3, 0, 0, 0x8a2e, 0x370, 0x7334], 0, 443)
    );
    assert_eq!(
        SocketAddress::parse("[2001:DB8::8A2E:370:7334]:443"),
        v6([0x2001, 0xdb8, 0, 0, 0, 0x8a2e, 0x370, 0x7334], 0, 443)
    );
    assert_eq!(SocketAddress::parse("[1::]:1"), v6([1, 0, 0, 0, 0, 0, 0, 0], 0, 1));
    assert_eq!(SocketAddress::parse("[1:2:3:4:5:6:7::]:1"), v6([1, 2, 3, 4, 5, 6, 7, 0], 0, 1));
    assert_eq!(SocketAddress::parse("[::2:3:4:5:6:7:8]:1"), v6([0, 2, 3, 4, 5, 6, 7, 8], 0, 1));
    assert_eq!(SocketAddress::parse("[0001::000f]:1"), v6([1, 0, 0, 0, 0, 0, 0, 15], 0, 1));
}

#[test]
fn reads_an_embedded_dotted_quad() {
    assert_eq!(
        SocketAddress::parse("[::ffff:192.0.2.128]:80"),
        v6([0, 0, 0, 0, 0, 0xffff, 0xc000, 0x0280], 0, 80)
    );
    assert_eq!(
        SocketAddress::parse("[::1.2.3.4]:80"),
        v6([0, 0, 0, 0, 0, 0, 0x0102, 0x0304], 0, 80)
    );
    assert_eq!(
        SocketAddress::parse("[1:2:3:4:5:6:1.2.3.4]:80"),
        v6([1, 2, 3, 4, 5, 6, 0x0102, 0x0304], 0, 80)
    );
    assert_eq!(
        SocketAddress::parse("[64:ff9b::10.0.0.1]:80"),
        v6([0x64, 0xff9b, 0, 0, 0, 0, 0x0a00, 0x0001], 0, 80)
    );
}

#[test]
fn embedded_dotted_quad_must_come_last_and_fit() {
    assert_eq!(SocketAddress::parse("[1.2.3.4::]:80"), None);
    assert_eq!(SocketAddress::parse("[1.2.3.4]:80"), None);
    assert_eq!(SocketAddress::parse("[::1.2.3.4:5]:80"), None);
    assert_eq!(SocketAddress::parse("[1:2:3:4:5:6:7:1.2.3.4]:80"), None);
    assert_eq!(SocketAddress::parse("[1:2:3:4:5:6::1.2.3.4]:80"), None);
    assert_eq!(SocketAddress::parse("[::1.2.3.256]:80"), None);
    assert_eq!(SocketAddress::parse("[::01.2.3.4]:80"), None);
}

#[test]
fn reads_a_scope_identifier() {
    assert_eq!(
        SocketAddress::parse("[fe80::1%3]:8080"),
        v6([0xfe80, 0, 0, 0, 0, 0, 0, 1], 3, 8080)
    );
    assert_eq!(
        SocketAddress::parse("[fe80::1%4294967295]:8080"),
        v6([0xfe80, 0, 0, 0, 0, 0, 0, 1], 4294967295, 8080)
    );
    assert_eq!(
        SocketAddress::parse("[fe80::1%007]:8080"),
        v6([0xfe80, 0, 0, 0, 0, 0, 0, 1], 7, 8080)
    );
    assert_eq!(SocketAddress::parse("[fe80::1%4294967296]:8080"), None);
    assert_eq!(SocketAddress::parse("[fe80::1%]:8080"), None);
    assert_eq!(SocketAddress::parse("[fe80::1%eth0]:8080"), None);
    assert_eq!(SocketAddress::parse("[fe80::1%1%2]:8080"), None);
    assert_eq!(SocketAddress::parse("[%1]:8080"), None);
}

#[test]
fn malformed_ipv6_is_refused() {
    assert_eq!(SocketAddress::parse("::1:3000"), None);
    assert_eq!(SocketAddress::parse("[::1:3000"), None);
    assert_eq!(SocketAddress::parse("::1]:3000"), None);
    assert_eq!(SocketAddress::parse("[]:3000"), None);
    assert_eq!(SocketAddress::parse("[:]:3000"), None);
    assert_eq!(SocketAddress::parse("[:::]:3000"), None);
    assert_eq!(SocketAddress::parse("[1::2::3]:3000"), None);
    assert_eq!(SocketAddress::parse("[1:2:3:4:5:6:7]:3000"), None);
    assert_eq!(SocketAddress::parse("[1:2:3:4:5:6:7:8:9]:3000"), None);
    assert_eq!(SocketAddress::parse("[1:2:3:4:5:6:7:8::]:3000"), None);
    assert_eq!(SocketAddress::parse("[::1:2:3:4:5:6:7:8]:3000"), None);
    assert_eq!(SocketAddress::parse("[1:2:3:4::5:6:7:8]:3000"), None);
    assert_eq!(SocketAddress::parse("[12345::]:3000"), None);
    assert_eq!(SocketAddress::parse("[g::]:3000"), None);
    assert_eq!(SocketAddress::parse("[:1::2]:3000"), None);
    assert_eq!(SocketAddress::parse("[1::2:]:3000"), None);
    assert_eq!(SocketAddress::parse("[[::1]]:3000"), None);
    assert_eq!(SocketAddress::parse("[::1] :3000"), None);
}

#[test]
fn from_bytes_reads_what_parse_reads() {
    assert_eq!(SocketAddress::from_bytes(b"127.0.0.1:3000"), v4(127, 0, 0, 1, 3000));
    assert_eq!(SocketAddress::from_bytes(b"[::1]:1"), v6([0, 0, 0, 0, 0, 0, 0, 1], 0, 1));
    assert_eq!(SocketAddress::from_bytes(&[0xff, 0xfe]), None);
    assert_eq!(SocketAddress::from_bytes(&[]), None);
}

#[test]
fn parses_bare_hosts() {
    assert_eq!(parse_ipv4(b"10.20.30.40"), Some([10, 20, 30, 40]));
    assert_eq!(parse_ipv4(b"10.20.30"), None);
    assert_eq!(parse_ipv4(b""), None);
    assert_eq!(parse_ipv6(b"::"), Some([0; 8]));
    assert_eq!(parse_ipv6(b"a:b:c:d:e:f:0:1"), Some([10, 11, 12, 13, 14, 15, 0, 1]));
    assert_eq!(parse_ipv6(b""), None);
    assert_eq!(parse_ipv6(b"1"), None);
}

#[test]
fn canonical_text_of_ipv4() {
    let a = SocketAddress::V4 { octets: [127, 0, 0, 1], port: 3000 };
    assert_eq!(a.to_text(), "127.0.0.1:3000");
    let b = SocketAddress::V4 { octets: [0, 10, 200, 255], port: 0 };
    assert_eq!(b.to_text(), "0.10.200.255:0");
    let c = SocketAddress::V4 { octets: [255, 255, 255, 255], port: 65535 };
    assert_eq!(c.to_text(), "255.255.255.255:65535");
}

#[test]
fn canonical_text_of_ipv6() {
    let a = SocketAddress::V6 { segments: [0, 0, 0, 0, 0, 0, 0, 1], scope_id: 0, port: 3000 };
    assert_eq!(a.to_text(), "[0:0:0:0:0:0:0:1]:3000");
    let b = SocketAddress::V6 {
        segments: [0xfe80, 0, 0, 0, 0xabcd, 0x10, 0xffff, 0x1],
        scope_id: 42,
        port: 8080,
    };
    assert_eq!(b.to_text(), "[fe80:0:0:0:abcd:10:ffff:1%42]:8080");
}

#[test]
fn canonical_text_reads_back() {
    let samples = vec![
        SocketAddress::V4 { octets: [0, 0, 0, 0], port: 0 },
        SocketAddress::V4 { octets: [127, 0, 0, 1], port: 3000 },
        SocketAddress::V4 { octets: [9, 99, 100, 255], port: 65535 },
        SocketAddress::V6 { segments: [0; 8], scope_id: 0, port: 1 },
        SocketAddress::V6 { segments: [0xffff; 8], scope_id: u32::MAX, port: 65535 },
        SocketAddress::V6 { segments: [1, 0x20, 0x300, 0x4000, 0, 15, 16, 255], scope_id: 9, port: 10 },
    ];
    for address in samples {
        assert_eq!(SocketAddress::parse(&address.to_text()), Some(address));
    }
}

#[test]
fn reading_then_writing_normalises() {
    let a = SocketAddress::parse("[2001:DB8::1]:0443").unwrap();
    assert_eq!(a.to_text(), "[2001:db8:0:0:0:0:0:1]:443");
    assert_eq!(SocketAddress::parse(&a.to_text()), Some(a));
}

#[test]
fn a_gap_of_one_group_is_allowed() {
    assert_eq!(SocketAddress::parse("[1:2:3::5:6:7:8]:9"), v6([1, 2, 3, 0, 5, 6, 7, 8], 0, 9));
    assert_eq!(
        SocketAddress::parse("[1:2:3:4:5::1.2.3.4]:80"),
        v6([1, 2, 3, 4, 5, 0, 0x0102, 0x0304], 0, 80)
    );
    assert_eq!(SocketAddress::parse("[1:2:3:4:5:1.2.3.4]:80"), None);
}

#[test]
fn scope_of_zero_may_be_written() {
    assert_eq!(SocketAddress::parse("[::%1]:80"), v6([0; 8], 1, 80));
    assert_eq!(SocketAddress::parse("[fe80::1%0]:80"), v6([0xfe80, 0, 0, 0, 0, 0, 0, 1], 0, 80));
    let a = SocketAddress::parse("[fe80::1%0]:80").unwrap();
    assert_eq!(a.to_text(), "[fe80:0:0:0:0:0:0:1]:80");
}

#[test]
fn a_piece_is_a_group_or_a_quad_never_a_mix() {
    assert_eq!(SocketAddress::parse("[::1234.2.3.4]:80"), None);
    assert_eq!(SocketAddress::parse("[::a.2.3.4]:80"), None);
    assert_eq!(SocketAddress::parse("[::1.2.3]:80"), None);
    assert_eq!(SocketAddress::parse("[::1.2.3.4.5]:80"), None);
    assert_eq!(SocketAddress::parse("[::1.2.3.4a]:80"), None);
}
