use std::sync::Arc;

use http_follow::routing::{route, Fault, HostUrls};
use http_follow::target::{BadUrl, Options, Url};
use http_follow::tls::tls_host;

fn options(urls: &[&str]) -> Options {
    Options { urls: urls.iter().map(|url| Url::parse(url).unwrap()).collect() }
}

fn hrefs(urls: &[Arc<Url>]) -> Vec<String> {
    urls.iter().map(|url| url.href.clone()).collect()
}

fn table(groups: &[HostUrls]) -> Vec<(String, Vec<String>)> {
    let mut table: Vec<(String, Vec<String>)> =
        groups.iter().map(|group| (group.host.clone(), hrefs(&group.urls))).collect();
    table.sort();
    table
}

#[test]
fn url_parts() {
    let url = Url::parse("HTTP://Example.ORG:8080/a/../logs/x.log?q=1#f").unwrap();
    assert_eq!(url.href, "http://example.org:8080/logs/x.log?q=1#f");
    assert_eq!(url.scheme, "http");
    assert_eq!(url.host, Some("example.org".to_string()));
    assert_eq!(url.port, Some(8080));
    assert_eq!(url.path, "/logs/x.log");
}

#[test]
fn ports_that_schemes_imply() {
    assert_eq!(Url::parse("http://example.org").unwrap().port, Some(80));
    assert_eq!(Url::parse("https://example.org").unwrap().port, Some(443));
    assert_eq!(Url::parse("http://example.org:80/").unwrap().href, "http://example.org/");
    assert_eq!(Url::parse("foo://example.org/").unwrap().port, None);
}

#[test]
fn what_is_no_url() {
    assert_eq!(Url::parse("example").err(), Some(BadUrl));
    assert_eq!(Url::parse("http://").err(), Some(BadUrl));
    assert_eq!(Url::parse("http://example.org:99999/").err(), Some(BadUrl));
}

#[test]
fn clone_of_a_url() {
    let url = Url::parse("https://example.org/a").unwrap();
    let copy = url.clone();
    assert_eq!(copy.href, url.href);
    assert_eq!(copy.host, url.host);
    assert_eq!(copy.port, url.port);
    assert_eq!(copy.path, url.path);
}

#[test]
fn routes_by_scheme_and_host() {
    let routes = route(&options(&[
        "http://a.example/1",
        "https://a.example/2",
        "http://b.example:8080/3",
        "http://a.example:80/4",
        "ftp://a.example/5",
        "http://a.example/1",
    ]));
    assert_eq!(routes.routed, 6);
    assert_eq!(routes.fault, None);
    assert_eq!(
        table(&routes.http),
        vec![
            (
                "a.example:80".to_string(),
                vec![
                    "http://a.example/1".to_string(),
                    "http://a.example/4".to_string(),
                    "http://a.example/1".to_string(),
                ]
            ),
            ("b.example:8080".to_string(), vec!["http://b.example:8080/3".to_string()]),
        ]
    );
    assert_eq!(
        table(&routes.https),
        vec![("a.example:443".to_string(), vec!["https://a.example/2".to_string()])]
    );
    assert_eq!(hrefs(&routes.unsupported), vec!["ftp://a.example/5".to_string()]);
}

#[test]
fn nothing_to_route() {
    let routes = route(&options(&[]));
    assert_eq!(routes.routed, 0);
    assert_eq!(routes.fault, None);
    assert!(routes.http.is_empty());
    assert!(routes.https.is_empty());
    assert!(routes.unsupported.is_empty());
}

#[test]
fn url_without_host_stops_routing() {
    let routes = route(&options(&["ftp://a.example/", "mailto:me", "http://a.example/"]));
    assert_eq!(routes.routed, 1);
    assert_eq!(routes.fault, Some(Fault::NoHost));
    assert!(routes.http.is_empty());
    assert_eq!(hrefs(&routes.unsupported), vec!["ftp://a.example/".to_string()]);
}

#[test]
fn url_without_port_stops_routing() {
    let routes = route(&options(&["http://a.example/", "foo://b.example/"]));
    assert_eq!(routes.routed, 1);
    assert_eq!(routes.fault, Some(Fault::NoPort));
    assert_eq!(table(&routes.http).len(), 1);
}

#[test]
fn certificate_name_is_the_host_of_the_url() {
    let routes = route(&options(&["https://a.example/", "https://10.0.0.1:8443/"]));
    for group in &routes.https {
        assert_eq!(Some(tls_host(&group.host).to_string()), group.urls[0].host);
    }
}

#[test]
fn ports_and_bracketed_hosts_are_told_apart() {
    let routes = route(&options(&[
        "http://[::1]/",
        "http://[::1]:8080/",
        "http://[::1:80]/",
        "http://10.0.0.1:8080/",
    ]));
    let hosts: Vec<String> = routes.http.iter().map(|group| group.host.clone()).collect();
    assert_eq!(hosts.len(), 4);
    assert!(hosts.contains(&"[::1]:80".to_string()));
    assert!(hosts.contains(&"[::1]:8080".to_string()));
    assert!(hosts.contains(&"10.0.0.1:8080".to_string()));
}
