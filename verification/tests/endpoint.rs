use sodacore::endpoint::Endpoint;
use sodacore::error::Error;

#[test]
fn parse_then_render_is_identity() {
    let e = Endpoint::parse(b"abc:8080").unwrap();
    assert_eq!(e.render(), b"abc:8080".to_vec());
}

#[test]
fn render_then_parse_is_identity() {
    let e = Endpoint::new(b"example.org".to_vec(), 443).unwrap();
    let rendered = e.render();
    assert_eq!(rendered, b"example.org:443".to_vec());
    let back = Endpoint::parse(&rendered).unwrap();
    assert_eq!(back, e);
}

#[test]
fn parse_canonicalizes_leading_zeros() {
    let e = Endpoint::parse(b"abc:0080").unwrap();
    assert_eq!(e.render(), b"abc:80".to_vec());
}

#[test]
fn parse_port_zero() {
    let e = Endpoint::parse(b"h:0").unwrap();
    assert_eq!(e.port, 0);
    assert_eq!(e.render(), b"h:0".to_vec());
}

#[test]
fn parse_largest_port() {
    let e = Endpoint::parse(b"h:65535").unwrap();
    assert_eq!(e.port, 65535);
}

#[test]
fn parse_rejects_missing_colon() {
    assert_eq!(Endpoint::parse(b"nocolon").unwrap_err(), Error::InvalidEndpoint);
}

#[test]
fn parse_rejects_two_colons() {
    assert_eq!(Endpoint::parse(b"a:b:c").unwrap_err(), Error::InvalidEndpoint);
}

#[test]
fn parse_rejects_empty_port() {
    assert_eq!(Endpoint::parse(b"abc:").unwrap_err(), Error::InvalidEndpoint);
}

#[test]
fn parse_rejects_nondigit_port() {
    assert_eq!(Endpoint::parse(b"abc:12x").unwrap_err(), Error::InvalidEndpoint);
}

#[test]
fn parse_rejects_port_overflow() {
    assert_eq!(Endpoint::parse(b"abc:65536").unwrap_err(), Error::InvalidEndpoint);
    assert_eq!(Endpoint::parse(b"abc:99999999999").unwrap_err(), Error::InvalidEndpoint);
}

#[test]
fn new_rejects_separator_in_host() {
    assert_eq!(Endpoint::new(b"a:b".to_vec(), 1).unwrap_err(), Error::InvalidEndpoint);
}

#[test]
fn empty_host_is_allowed() {
    let e = Endpoint::parse(b":12").unwrap();
    assert_eq!(e.port, 12);
    assert!(e.addr.is_empty());
    assert_eq!(e.render(), b":12".to_vec());
}
