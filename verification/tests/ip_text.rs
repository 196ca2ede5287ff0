use netplan_api::ip::{parse_ip, IpAddress};

#[test]
fn ipv4_renders_dotted_decimal() {
    assert_eq!(IpAddress::V4(192, 168, 0, 1).to_text(), "192.168.0.1");
    assert_eq!(IpAddress::V4(0, 0, 0, 0).to_text(), "0.0.0.0");
    assert_eq!(IpAddress::V4(255, 255, 255, 255).to_text(), "255.255.255.255");
}

#[test]
fn ipv6_compresses_the_leftmost_longest_zero_run() {
    assert_eq!(IpAddress::V6(0x2001, 0xdb8, 0, 0, 0, 0, 0, 1).to_text(), "2001:db8::1");
    assert_eq!(IpAddress::V6(0, 0, 0, 0, 0, 0, 0, 0).to_text(), "::");
    assert_eq!(IpAddress::V6(0, 0, 0, 0, 0, 0, 0, 1).to_text(), "::1");
    assert_eq!(IpAddress::V6(1, 0, 0, 2, 0, 0, 0, 3).to_text(), "1:0:0:2::3");
    assert_eq!(IpAddress::V6(1, 0, 0, 0, 2, 0, 0, 3).to_text(), "1::2:0:0:3");
    assert_eq!(IpAddress::V6(1, 2, 3, 4, 5, 6, 7, 8).to_text(), "1:2:3:4:5:6:7:8");
    assert_eq!(IpAddress::V6(1, 0, 2, 3, 4, 5, 6, 7).to_text(), "1:0:2:3:4:5:6:7");
    assert_eq!(IpAddress::V6(0xfe80, 0, 0, 0, 0, 0, 0, 0), {
        let ip = parse_ip("fe80::").unwrap();
        ip
    });
}

#[test]
fn embedded_dotted_quads_render_and_parse() {
    // IPv4-mapped and IPv4-compatible addresses embed their dotted quad.
    let mapped = IpAddress::V6(0, 0, 0, 0, 0, 0xffff, 0x0a00, 0x0001);
    assert_eq!(mapped.to_text(), "::ffff:10.0.0.1");
    assert_eq!(parse_ip("::ffff:10.0.0.1"), Some(mapped));
    let compat = IpAddress::V6(0, 0, 0, 0, 0, 0, 0, 2);
    assert_eq!(compat.to_text(), "::0.0.0.2");
    assert_eq!(parse_ip("::0.0.0.2"), Some(compat));
    assert_eq!(
        parse_ip("::192.168.0.5"),
        Some(IpAddress::V6(0, 0, 0, 0, 0, 0, 0xc0a8, 0x0005))
    );
    assert_eq!(
        parse_ip("1:2:3:4:5:6:7.8.9.10"),
        Some(IpAddress::V6(1, 2, 3, 4, 5, 6, 0x0708, 0x090a))
    );
    // The unspecified address and the loopback keep their colon forms.
    assert_eq!(IpAddress::V6(0, 0, 0, 0, 0, 0, 0, 0).to_text(), "::");
    assert_eq!(IpAddress::V6(0, 0, 0, 0, 0, 0, 0, 1).to_text(), "::1");
    // Malformed embedded forms are refused.
    assert_eq!(parse_ip("1.2.3.4::5"), None);
    assert_eq!(parse_ip("::1.2.3"), None);
    assert_eq!(parse_ip("1:2:3:4:5:6:7:8.9.10.11"), None);
}

#[test]
fn parse_accepts_valid_literals() {
    assert_eq!(parse_ip("10.0.0.1"), Some(IpAddress::V4(10, 0, 0, 1)));
    assert_eq!(parse_ip("0.0.0.0"), Some(IpAddress::V4(0, 0, 0, 0)));
    assert_eq!(
        parse_ip("2001:db8::1"),
        Some(IpAddress::V6(0x2001, 0xdb8, 0, 0, 0, 0, 0, 1))
    );
    assert_eq!(parse_ip("::"), Some(IpAddress::V6(0, 0, 0, 0, 0, 0, 0, 0)));
    assert_eq!(parse_ip("::1"), Some(IpAddress::V6(0, 0, 0, 0, 0, 0, 0, 1)));
    assert_eq!(
        parse_ip("1:2:3:4:5:6:7:8"),
        Some(IpAddress::V6(1, 2, 3, 4, 5, 6, 7, 8))
    );
    assert_eq!(
        parse_ip("A:B:c:D:e:f:1:2"),
        Some(IpAddress::V6(10, 11, 12, 13, 14, 15, 1, 2))
    );
}

#[test]
fn parse_rejects_invalid_literals() {
    assert_eq!(parse_ip(""), None);
    assert_eq!(parse_ip("256.0.0.1"), None);
    assert_eq!(parse_ip("01.2.3.4"), None);
    assert_eq!(parse_ip("1.2.3"), None);
    assert_eq!(parse_ip("1.2.3.4.5"), None);
    assert_eq!(parse_ip("1::2::3"), None);
    assert_eq!(parse_ip("1:2:3:4:5:6:7:8:9"), None);
    assert_eq!(parse_ip("12345::"), None);
    assert_eq!(parse_ip("default"), None);
    assert_eq!(parse_ip("fe8g::"), None);
}

#[test]
fn parse_inverts_rendering_on_samples() {
    let samples = [
        IpAddress::V4(192, 168, 0, 1),
        IpAddress::V4(0, 0, 0, 0),
        IpAddress::V6(0x2001, 0xdb8, 0, 0, 0, 0, 0, 1),
        IpAddress::V6(0, 0, 0, 0, 0, 0, 0, 0),
        IpAddress::V6(1, 0, 0, 2, 0, 0, 0, 3),
        IpAddress::V6(0xfe80, 0, 0, 0, 0x1234, 0, 0, 1),
        IpAddress::V6(0, 0, 0, 0, 0, 0xffff, 0xc0a8, 0x0005),
        IpAddress::V6(0, 0, 0, 0, 0, 0, 0x0102, 0x0304),
        IpAddress::V6(0, 0, 0, 0, 0, 0xffff, 0, 0),
    ];
    for ip in samples {
        assert_eq!(parse_ip(&ip.to_text()), Some(ip));
    }
}
