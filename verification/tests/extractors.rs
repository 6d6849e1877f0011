use client_ip::{
    cf_connecting_ip, cloudfront_viewer_address, fly_client_ip, rightmost_forwarded,
    rightmost_x_forwarded_for, true_client_ip, x_real_ip, AsciiHeaderValue, Error, IpAddress,
};
use http::HeaderMap;

const VALID_IPV4: &str = "1.2.3.4";
const VALID_IPV6: &str = "1:23:4567:89ab:c:d:e:f";

fn ipv4() -> IpAddress {
    IpAddress::V4(1, 2, 3, 4)
}

fn ipv6() -> IpAddress {
    IpAddress::V6(0x1, 0x23, 0x4567, 0x89ab, 0xc, 0xd, 0xe, 0xf)
}

fn headers<'a>(items: impl IntoIterator<Item = (&'a str, &'a str)>) -> HeaderMap {
    HeaderMap::from_iter(
        items
            .into_iter()
            .map(|(name, value)| (name.parse().unwrap(), value.parse().unwrap())),
    )
}

#[test]
fn test_ascii_header_value_of_last_header() {
    let header_name = "my-header";

    assert_eq!(
        AsciiHeaderValue::of_last_header(&headers([]), header_name).unwrap_err(),
        Error::AbsentHeader {
            header_name: header_name.to_string()
        }
    );

    assert_eq!(
        AsciiHeaderValue::of_last_header(&headers([(header_name, "ы")]), header_name)
            .unwrap_err(),
        Error::NonAsciiHeaderValue {
            header_name: header_name.to_string()
        }
    );

    assert_eq!(
        AsciiHeaderValue::of_last_header(&headers([(header_name, "foo")]), header_name)
            .unwrap()
            .0,
        "foo",
        "single valid header"
    );

    assert_eq!(
        AsciiHeaderValue::of_last_header(
            &headers([(header_name, "foo"), (header_name, "bar")]),
            header_name
        )
        .unwrap()
        .0,
        "bar",
        "multiple valid headers"
    );
}

#[test]
fn test_ascii_header_value_of_single_header() {
    let header_name = "my-header";

    assert_eq!(
        AsciiHeaderValue::of_single_header(&headers([]), header_name).unwrap_err(),
        Error::AbsentHeader {
            header_name: header_name.to_string()
        }
    );

    assert_eq!(
        AsciiHeaderValue::of_single_header(&headers([(header_name, "ы")]), header_name)
            .unwrap_err(),
        Error::NonAsciiHeaderValue {
            header_name: header_name.to_string()
        }
    );

    assert_eq!(
        AsciiHeaderValue::of_single_header(
            &headers([(header_name, "foo"), (header_name, "bar")]),
            header_name
        )
        .unwrap_err(),
        Error::SingleHeaderRequired {
            header_name: header_name.to_string()
        }
    );

    assert_eq!(
        AsciiHeaderValue::of_single_header(&headers([(header_name, "foo")]), header_name)
            .unwrap()
            .0,
        "foo"
    );
}

#[test]
fn test_cf_connecting_ip() {
    let header = "cf-connecting-ip";

    assert_eq!(
        cf_connecting_ip(&headers([])).unwrap_err(),
        Error::AbsentHeader {
            header_name: header.to_string()
        }
    );
    assert_eq!(
        cf_connecting_ip(&headers([(header, "ы")])).unwrap_err(),
        Error::NonAsciiHeaderValue {
            header_name: header.to_string()
        }
    );
    assert_eq!(
        cf_connecting_ip(&headers([(header, "foo")])).unwrap_err(),
        Error::MalformedHeaderValue {
            header_name: header.to_string(),
            header_value: "foo".into(),
        }
    );

    assert_eq!(
        cf_connecting_ip(&headers([(header, VALID_IPV4)])).unwrap(),
        ipv4()
    );
    assert_eq!(
        cf_connecting_ip(&headers([(header, VALID_IPV6)])).unwrap(),
        ipv6()
    );
}

#[test]
fn test_cloudfront_viewer_address() {
    let header = "cloudfront-viewer-address";

    assert_eq!(
        cloudfront_viewer_address(&headers([])).unwrap_err(),
        Error::AbsentHeader {
            header_name: header.to_string()
        }
    );
    assert_eq!(
        cloudfront_viewer_address(&headers([(header, "ы")])).unwrap_err(),
        Error::NonAsciiHeaderValue {
            header_name: header.to_string()
        }
    );
    assert_eq!(
        cloudfront_viewer_address(&headers([(header, VALID_IPV4)])).unwrap_err(),
        Error::MalformedHeaderValue {
            header_name: header.to_string(),
            header_value: VALID_IPV4.into(),
        }
    );
    assert_eq!(
        cloudfront_viewer_address(&headers([(header, "foo:8000")])).unwrap_err(),
        Error::MalformedHeaderValue {
            header_name: header.to_string(),
            header_value: "foo:8000".into(),
        }
    );

    let valid_header_value_v4 = format!("{VALID_IPV4}:8000");
    let valid_header_value_v6 = format!("{VALID_IPV6}:8000");
    assert_eq!(
        cloudfront_viewer_address(&headers([(header, valid_header_value_v4.as_ref())])).unwrap(),
        ipv4()
    );
    assert_eq!(
        cloudfront_viewer_address(&headers([(header, valid_header_value_v6.as_ref())])).unwrap(),
        ipv6()
    );
}

#[test]
fn test_fly_client_ip() {
    let header = "fly-client-ip";

    assert_eq!(
        fly_client_ip(&headers([])).unwrap_err(),
        Error::AbsentHeader {
            header_name: header.to_string()
        }
    );
    assert_eq!(
        fly_client_ip(&headers([(header, "ы")])).unwrap_err(),
        Error::NonAsciiHeaderValue {
            header_name: header.to_string()
        }
    );
    assert_eq!(
        fly_client_ip(&headers([(header, "foo")])).unwrap_err(),
        Error::MalformedHeaderValue {
            header_name: header.to_string(),
            header_value: "foo".into(),
        }
    );

    assert_eq!(fly_client_ip(&headers([(header, VALID_IPV4)])).unwrap(), ipv4());
    assert_eq!(fly_client_ip(&headers([(header, VALID_IPV6)])).unwrap(), ipv6());
}

#[test]
fn test_rightmost_forwarded() {
    let header = "forwarded";

    assert_eq!(
        rightmost_forwarded(&headers([])).unwrap_err(),
        Error::AbsentHeader {
            header_name: header.to_string()
        }
    );
    assert_eq!(
        rightmost_forwarded(&headers([(header, "ы")])).unwrap_err(),
        Error::NonAsciiHeaderValue {
            header_name: header.to_string()
        }
    );
    assert_eq!(
        rightmost_forwarded(&headers([(header, "foo")])).unwrap_err(),
        Error::MalformedHeaderValue {
            header_name: header.to_string(),
            header_value: "foo".into(),
        }
    );
    assert_eq!(
        rightmost_forwarded(&headers([
            (header, format!("for={VALID_IPV4}").as_ref()),
            (header, "proto=http"),
        ]))
        .unwrap_err(),
        Error::ForwardedNoFor {
            header_value: "proto=http".into(),
        }
    );
    assert_eq!(
        rightmost_forwarded(&headers([(header, "for=unknown")])).unwrap_err(),
        Error::ForwardedUnknown {
            header_value: "for=unknown".into(),
        }
    );
    assert_eq!(
        rightmost_forwarded(&headers([(header, "for=_foo")])).unwrap_err(),
        Error::ForwardedObfuscated {
            header_value: "for=_foo".into(),
        }
    );

    assert_eq!(
        rightmost_forwarded(&headers([
            (header, "proto=http"),
            (header, format!("for={VALID_IPV4};proto=http").as_ref()),
        ]))
        .unwrap(),
        ipv4()
    );
    assert_eq!(
        rightmost_forwarded(&headers([(header, format!("for={VALID_IPV4}:8000").as_ref())]))
            .unwrap(),
        ipv4()
    );

    assert_eq!(
        rightmost_forwarded(&headers([(header, format!("for={VALID_IPV6}").as_ref())])).unwrap(),
        ipv6()
    );
    assert_eq!(
        rightmost_forwarded(&headers([(header, format!("for=[{VALID_IPV6}]:8000").as_ref())]))
            .unwrap(),
        ipv6()
    );
}

#[test]
fn test_rightmost_x_forwarded_for() {
    let header = "x-forwarded-for";

    assert_eq!(
        rightmost_x_forwarded_for(&headers([])).unwrap_err(),
        Error::AbsentHeader {
            header_name: header.to_string()
        }
    );
    assert_eq!(
        rightmost_x_forwarded_for(&headers([(header, "ы")])).unwrap_err(),
        Error::NonAsciiHeaderValue {
            header_name: header.to_string()
        }
    );
    assert_eq!(
        rightmost_x_forwarded_for(&headers([(header, "1.2.3.4,foo")])).unwrap_err(),
        Error::MalformedHeaderValue {
            header_name: header.to_string(),
            header_value: "1.2.3.4,foo".into(),
        }
    );

    assert_eq!(
        rightmost_x_forwarded_for(&headers([(header, format!("foo,{VALID_IPV4}").as_ref())]))
            .unwrap(),
        ipv4()
    );
    assert_eq!(
        rightmost_x_forwarded_for(&headers([(header, VALID_IPV6)])).unwrap(),
        ipv6()
    );
}

#[test]
fn test_true_client_ip() {
    let header = "true-client-ip";

    assert_eq!(
        true_client_ip(&headers([])).unwrap_err(),
        Error::AbsentHeader {
            header_name: header.to_string()
        }
    );
    assert_eq!(
        true_client_ip(&headers([(header, "ы")])).unwrap_err(),
        Error::NonAsciiHeaderValue {
            header_name: header.to_string()
        }
    );
    assert_eq!(
        true_client_ip(&headers([(header, "foo")])).unwrap_err(),
        Error::MalformedHeaderValue {
            header_name: header.to_string(),
            header_value: "foo".into(),
        }
    );

    assert_eq!(true_client_ip(&headers([(header, VALID_IPV4)])).unwrap(), ipv4());
    assert_eq!(true_client_ip(&headers([(header, VALID_IPV6)])).unwrap(), ipv6());
}

#[test]
fn test_x_real_ip() {
    let header = "x-real-ip";

    assert_eq!(
        x_real_ip(&headers([])).unwrap_err(),
        Error::AbsentHeader {
            header_name: header.to_string()
        }
    );
    assert_eq!(
        x_real_ip(&headers([(header, "ы")])).unwrap_err(),
        Error::NonAsciiHeaderValue {
            header_name: header.to_string()
        }
    );
    assert_eq!(
        x_real_ip(&headers([(header, "foo")])).unwrap_err(),
        Error::MalformedHeaderValue {
            header_name: header.to_string(),
            header_value: "foo".into(),
        }
    );

    assert_eq!(x_real_ip(&headers([(header, VALID_IPV4)])).unwrap(), ipv4());
    assert_eq!(x_real_ip(&headers([(header, VALID_IPV6)])).unwrap(), ipv6());
}

#[test]
fn test_take_last_ignores_earlier_occurrences() {
    let header = "cloudfront-viewer-address";
    assert_eq!(
        cloudfront_viewer_address(&headers([
            (header, "garbage"),
            (header, "1.2.3.4:8000"),
        ]))
        .unwrap(),
        ipv4()
    );

    let header = "x-forwarded-for";
    assert_eq!(
        rightmost_x_forwarded_for(&headers([(header, "nonsense"), (header, "1.2.3.4")])).unwrap(),
        ipv4()
    );
    assert_eq!(
        rightmost_x_forwarded_for(&headers([(header, "1.2.3.4"), (header, "nonsense")]))
            .unwrap_err(),
        Error::MalformedHeaderValue {
            header_name: header.to_string(),
            header_value: "nonsense".into(),
        }
    );
}

#[test]
fn test_forwarded_errors_carry_stanza_text() {
    let header = "forwarded";
    assert_eq!(
        rightmost_forwarded(&headers([(header, "for=1.2.3.4, proto=http")])).unwrap_err(),
        Error::ForwardedNoFor {
            header_value: "proto=http".into(),
        }
    );
    assert_eq!(
        rightmost_forwarded(&headers([(header, "for=1.2.3.4,for=unknown")])).unwrap_err(),
        Error::ForwardedUnknown {
            header_value: "for=unknown".into(),
        }
    );
    assert_eq!(
        rightmost_forwarded(&headers([(header, "for=1.2.3.4, for=_secret")])).unwrap_err(),
        Error::ForwardedObfuscated {
            header_value: "for=_secret".into(),
        }
    );
}

#[test]
fn test_forwarded_lone_quote_host_is_malformed() {
    let header = "forwarded";
    assert_eq!(
        rightmost_forwarded(&headers([(header, "host=\"")])).unwrap_err(),
        Error::MalformedHeaderValue {
            header_name: header.to_string(),
            header_value: "host=\"".into(),
        }
    );
    assert_eq!(
        rightmost_forwarded(&headers([(header, "for=1.2.3.4;HOST=\"")])).unwrap_err(),
        Error::MalformedHeaderValue {
            header_name: header.to_string(),
            header_value: "for=1.2.3.4;HOST=\"".into(),
        }
    );
    assert_eq!(
        rightmost_forwarded(&headers([(header, "host=\"example.com\";for=1.2.3.4")])).unwrap(),
        ipv4()
    );
}

#[test]
fn test_empty_values_are_malformed() {
    let header = "x-forwarded-for";
    assert_eq!(
        rightmost_x_forwarded_for(&headers([(header, "")])).unwrap_err(),
        Error::MalformedHeaderValue {
            header_name: header.to_string(),
            header_value: "".into(),
        }
    );

    let header = "cf-connecting-ip";
    assert_eq!(
        cf_connecting_ip(&headers([(header, "")])).unwrap_err(),
        Error::MalformedHeaderValue {
            header_name: header.to_string(),
            header_value: "".into(),
        }
    );
}

#[test]
fn test_cloudfront_ipv6_loopback_with_port() {
    let header = "cloudfront-viewer-address";
    assert_eq!(
        cloudfront_viewer_address(&headers([(header, "::1:8000")])).unwrap(),
        IpAddress::V6(0, 0, 0, 0, 0, 0, 0, 1)
    );
}

#[test]
fn test_extractors_are_idempotent() {
    let map = headers([("cf-connecting-ip", VALID_IPV4)]);
    assert_eq!(cf_connecting_ip(&map), cf_connecting_ip(&map));

    let map = headers([("cf-connecting-ip", "foo")]);
    assert_eq!(cf_connecting_ip(&map), cf_connecting_ip(&map));

    let map = headers([
        ("x-forwarded-for", "foo,1.2.3.4"),
        ("x-forwarded-for", "5.6.7.8"),
    ]);
    assert_eq!(rightmost_x_forwarded_for(&map), rightmost_x_forwarded_for(&map));

    let map = headers([("forwarded", "for=unknown")]);
    assert_eq!(rightmost_forwarded(&map), rightmost_forwarded(&map));
}
