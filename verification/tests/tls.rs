use std::sync::Arc;

use http_follow::routing::HostUrls;
use http_follow::target::Url;
use http_follow::tls::{plan_https, tls_host, tls_peer, TlsPlan};

#[test]
fn host_without_port() {
    assert_eq!(tls_host("example.org"), "example.org");
    assert_eq!(tls_host(""), "");
}

#[test]
fn host_with_port() {
    assert_eq!(tls_host("example.org:443"), "example.org");
    assert_eq!(tls_host("example.org:"), "example.org");
    assert_eq!(tls_host(":443"), "");
}

#[test]
fn only_the_first_colon_counts() {
    assert_eq!(tls_host("a:b:c"), "a");
    assert_eq!(tls_host("[::1]:443"), "[");
}

#[test]
fn host_beyond_ascii() {
    assert_eq!(tls_host("b\u{fc}cher.example:8443"), "b\u{fc}cher.example");
}

#[test]
fn tls_plans() {
    let url = Arc::new(Url::parse("https://example.org/log").unwrap());
    let hosts = vec![HostUrls { host: "example.org:443".to_string(), urls: vec![url] }];
    assert_eq!(plan_https(&Vec::new(), false), TlsPlan::Nothing);
    assert_eq!(plan_https(&Vec::new(), true), TlsPlan::Nothing);
    assert_eq!(plan_https(&hosts, false), TlsPlan::Unsupported);
    assert_eq!(plan_https(&hosts, true), TlsPlan::Connect);
}

#[test]
fn connection_for_a_host() {
    let url = Arc::new(Url::parse("https://example.org:8443/log").unwrap());
    let host = HostUrls { host: "example.org:8443".to_string(), urls: vec![url] };
    let peer = tls_peer(host, Some("10.0.0.1:8443".to_string())).unwrap();
    assert_eq!(peer.name, "example.org");
    assert_eq!(peer.addr, "10.0.0.1:8443");
    assert_eq!(peer.urls.len(), 1);
    let host = HostUrls { host: "example.org:8443".to_string(), urls: Vec::new() };
    assert!(tls_peer::<String>(host, None).is_none());
}
