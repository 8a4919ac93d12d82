use reqwless::url::{Url, UrlScheme};

#[test]
fn test_parse_minimal() {
    let url = Url::parse("http://localhost").unwrap();
    assert_eq!(url.host(), "localhost");
    assert_eq!(url.port(), 80);
    assert_eq!(url.scheme(), UrlScheme::HTTP);
    assert_eq!(url.path(), "/");
}

#[test]
fn test_parse_path() {
    let url = Url::parse("http://localhost/foo/bar").unwrap();
    assert_eq!(url.host(), "localhost");
    assert_eq!(url.port(), 80);
    assert_eq!(url.scheme(), UrlScheme::HTTP);
    assert_eq!(url.path(), "/foo/bar");
}

#[test]
fn test_parse_port() {
    let url = Url::parse("http://localhost:8088").unwrap();
    assert_eq!(url.host(), "localhost");
    assert_eq!(url.port(), 8088);
    assert_eq!(url.scheme(), UrlScheme::HTTP);
    assert_eq!(url.path(), "/");
}

#[test]
fn test_parse_port_path() {
    let url = Url::parse("http://localhost:8088/foo/bar").unwrap();
    assert_eq!(url.host(), "localhost");
    assert_eq!(url.port(), 8088);
    assert_eq!(url.scheme(), UrlScheme::HTTP);
    assert_eq!(url.path(), "/foo/bar");
}

#[test]
fn test_parse_scheme() {
    let url = Url::parse("https://localhost/").unwrap();
    assert_eq!(url.host(), "localhost");
    assert_eq!(url.port(), 443);
    assert_eq!(url.scheme(), UrlScheme::HTTPS);
    assert_eq!(url.path(), "/");
}

#[test]
fn unsupported_scheme_is_invalid() {
    assert!(Url::parse("ftp://localhost").is_err());
    assert!(Url::parse("localhost").is_err());
}
