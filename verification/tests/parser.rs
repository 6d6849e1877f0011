use client_ip::ip::{parse_whole, render_text};
use client_ip::IpAddress;

fn parse(s: &str) -> Option<IpAddress> {
    parse_whole(&s.as_bytes().to_vec())
}

#[test]
fn test_parse_ipv4_literals() {
    assert_eq!(parse("1.2.3.4"), Some(IpAddress::V4(1, 2, 3, 4)));
    assert_eq!(parse("0.0.0.0"), Some(IpAddress::V4(0, 0, 0, 0)));
    assert_eq!(parse("255.255.255.255"), Some(IpAddress::V4(255, 255, 255, 255)));
    assert_eq!(parse(" 1.2.3.4 "), Some(IpAddress::V4(1, 2, 3, 4)));

    assert_eq!(parse("foo"), None);
    assert_eq!(parse(""), None);
    assert_eq!(parse("1.2.3"), None);
    assert_eq!(parse("1.2.3.4.5"), None);
    assert_eq!(parse("256.1.1.1"), None);
    assert_eq!(parse("01.2.3.4"), None);
    assert_eq!(parse("1.2.3.04"), None);
    assert_eq!(parse("1.2.3.4 x"), None);
    assert_eq!(parse("1.2.3.4:80"), None);
    assert_eq!(parse("1.2.3."), None);
    assert_eq!(parse(".1.2.3.4"), None);
}

#[test]
fn test_parse_ipv6_literals() {
    assert_eq!(
        parse("1:23:4567:89ab:c:d:e:f"),
        Some(IpAddress::V6(0x1, 0x23, 0x4567, 0x89ab, 0xc, 0xd, 0xe, 0xf))
    );
    assert_eq!(
        parse("1:23:4567:89AB:c:d:e:F"),
        Some(IpAddress::V6(0x1, 0x23, 0x4567, 0x89ab, 0xc, 0xd, 0xe, 0xf))
    );
    assert_eq!(parse("::"), Some(IpAddress::V6(0, 0, 0, 0, 0, 0, 0, 0)));
    assert_eq!(parse("::1"), Some(IpAddress::V6(0, 0, 0, 0, 0, 0, 0, 1)));
    assert_eq!(parse("1::"), Some(IpAddress::V6(1, 0, 0, 0, 0, 0, 0, 0)));
    assert_eq!(parse("1::2"), Some(IpAddress::V6(1, 0, 0, 0, 0, 0, 0, 2)));
    assert_eq!(
        parse("1:2:3:4:5:6:7::"),
        Some(IpAddress::V6(1, 2, 3, 4, 5, 6, 7, 0))
    );
    assert_eq!(
        parse("::ffff:1.2.3.4"),
        Some(IpAddress::V6(0, 0, 0, 0, 0, 0xffff, 0x0102, 0x0304))
    );
    assert_eq!(
        parse("1:2:3:4:5:6:1.2.3.4"),
        Some(IpAddress::V6(1, 2, 3, 4, 5, 6, 0x0102, 0x0304))
    );

    assert_eq!(parse(":::"), None);
    assert_eq!(parse("1::2::3"), None);
    assert_eq!(parse("1:2:3:4:5:6:7"), None);
    assert_eq!(parse("1:2:3:4:5:6:7:8:9"), None);
    assert_eq!(parse("1:2:3:4:5:6:7:8::"), None);
    assert_eq!(parse("12345::"), None);
    assert_eq!(parse("g::1"), None);
    assert_eq!(parse("[::1]"), None);
    assert_eq!(parse("::1.2.3.4:5"), None);
    assert_eq!(parse("1.2.3.4::5"), None);
    assert_eq!(parse(":1::2"), None);
    assert_eq!(parse("1::2:"), None);
}

#[test]
fn test_render_exact_text() {
    assert_eq!(render_text(&IpAddress::V4(1, 2, 3, 4)), "1.2.3.4");
    assert_eq!(render_text(&IpAddress::V4(0, 10, 100, 255)), "0.10.100.255");
    assert_eq!(
        render_text(&IpAddress::V6(0x1, 0x23, 0x4567, 0x89ab, 0xc, 0xd, 0xe, 0xf)),
        "1:23:4567:89ab:c:d:e:f"
    );
    assert_eq!(
        render_text(&IpAddress::V6(0, 0, 0, 0, 0, 0, 0, 0)),
        "0:0:0:0:0:0:0:0"
    );
}

#[test]
fn test_render_parse_round_trip() {
    let samples = [
        IpAddress::V4(0, 0, 0, 0),
        IpAddress::V4(1, 2, 3, 4),
        IpAddress::V4(255, 255, 255, 255),
        IpAddress::V4(10, 0, 200, 9),
        IpAddress::V6(0, 0, 0, 0, 0, 0, 0, 0),
        IpAddress::V6(0x1, 0x23, 0x4567, 0x89ab, 0xc, 0xd, 0xe, 0xf),
        IpAddress::V6(0xffff, 0xffff, 0xffff, 0xffff, 0xffff, 0xffff, 0xffff, 0xffff),
        IpAddress::V6(0x2001, 0xdb8, 0, 0, 0, 0, 0, 0x17),
    ];
    for ip in samples {
        let text = render_text(&ip);
        assert_eq!(parse(&text), Some(ip), "round trip through {text}");
    }
}
