use http_follow::host::fits;
use http_follow::target::{BadUrl, Url};

/// A text made of the same piece over and over.
fn times(piece: &str, count: usize) -> String {
    piece.repeat(count)
}

#[test]
fn host_whose_punycode_overflows_is_refused() {
    let text = format!("http://{}\u{10ff70}", times("a", 3855));
    assert!(!fits(&text));
    assert_eq!(Url::parse(&text).unwrap_err(), BadUrl);
    let text = format!("https://user@{}\u{20000}.example/log", times("b", 40_000));
    assert!(!fits(&text));
    assert_eq!(Url::parse(&text).unwrap_err(), BadUrl);
    let text = format!("http://{}%F0%A0%80%80:80/log", times("b", 40_000));
    assert!(!fits(&text));
    assert_eq!(Url::parse(&text).unwrap_err(), BadUrl);
}

#[test]
fn the_last_host_whose_punycode_can_be_computed() {
    // 0x1ff80 for each place, of which there is one more than letters, and one for each letter.
    let url = Url::parse(&format!("http://{}\u{20000}/", times("a", 32_798))).unwrap();
    assert!(url.host.unwrap().starts_with("xn--aaa"));
    let text = format!("http://{}\u{20000}/", times("a", 32_799));
    assert!(!fits(&text));
    assert_eq!(Url::parse(&text).unwrap_err(), BadUrl);
    // With the letters behind, there are the places alone.
    assert!(Url::parse(&format!("http://\u{20000}{}/", times("a", 32_799))).is_ok());
    assert!(!fits(&format!("http://\u{20000}{}/", times("a", 32_800))));
}

#[test]
fn long_hosts_outside_of_ascii() {
    for count in [214, 215, 5000] {
        let url = Url::parse(&format!("http://{}/", times("\u{e4}", count))).unwrap();
        assert!(url.host.unwrap().starts_with("xn--"), "{}", count);
    }
    let label = times("\u{e4}", 56);
    let host = format!("{}.{}.{}.{}", label, label, label, label);
    let url = Url::parse(&format!("http://{}:8080/", host)).unwrap();
    assert_eq!(url.host.unwrap().matches("xn--").count(), 4);
    assert_eq!(url.port, Some(8080));
    // Each of these stands for eighteen characters, spaces among them.
    assert!(fits(&format!("http://{}/", times("\u{fdfa}", 1000))));
    assert!(Url::parse(&format!("http://{}/", times("\u{fdfa}", 1000))).is_err());
}

#[test]
fn long_hosts_with_escapes() {
    let url = Url::parse(&format!("http://{}/", times("%c3%A4", 3000))).unwrap();
    assert_eq!(url.host, Url::parse(&format!("http://{}/", times("\u{e4}", 3000))).unwrap().host);
}

#[test]
fn long_labels_in_punycode() {
    let host = Url::parse(&format!("http://{}/", times("\u{e4}", 5000))).unwrap().host.unwrap();
    assert_eq!(Url::parse(&format!("http://{}/", host)).unwrap().host, Some(host));
    let host = format!("a--{}", times("b", 5000));
    assert_eq!(Url::parse(&format!("http://{}  ", host)).unwrap().host, Some(host));
}

#[test]
fn plain_host_of_any_length() {
    let host = times("abc.", 5000);
    let url = Url::parse(&format!("http://{}:8080/log", host)).unwrap();
    assert_eq!(url.host, Some(host));
    assert_eq!(url.port, Some(8080));
}

#[test]
fn other_parts_of_any_length() {
    let long = times("\u{e4}", 5000);
    let escaped = times("%C3%A4", 5000);
    let url = Url::parse(&format!("http://example.org/{}", long)).unwrap();
    assert_eq!(url.path, format!("/{}", escaped));
    let url = Url::parse(&format!("http://example.org?{}#{}", long, long)).unwrap();
    assert_eq!(url.host, Some("example.org".to_string()));
    let url = Url::parse(&format!("http://{}:{}@example.org\\{}", long, long, long)).unwrap();
    assert_eq!(url.host, Some("example.org".to_string()));
    assert_eq!(url.path, format!("/{}", escaped));
}

#[test]
fn host_is_found_in_any_spelling() {
    let long = format!("{}\u{10ff70}", times("a", 3855));
    for start in [
        "http://",
        "HTTPS://",
        " \u{1} hT\ttp://",
        "http:",
        "http:/\\\n/",
        "ws://",
        "Wss://",
        "ftp://",
        "GOPHER://",
        "http://a@b@",
        "file://",
        "fIle:\\\t/",
    ] {
        assert!(!fits(&format!("{}{}", start, long)), "{:?}", start);
        assert!(!fits(&format!("{}{} \t", start, long)), "{:?}", start);
        assert!(!fits(&format!("{}b.{}.c/d", start, long)), "{:?}", start);
        assert!(fits(&format!("{}h/{}", start, long)), "{:?}", start);
        assert!(fits(&format!("{}h?{}", start, long)), "{:?}", start);
        assert!(fits(&format!("{}h#{}", start, long)), "{:?}", start);
        assert!(fits(&format!("{}h\\{}", start, long)), "{:?}", start);
    }
    assert!(!fits(&format!("http://{}:80", long)));
    assert!(fits(&format!("http://h:{}", long)));
    assert!(!fits(&format!("http://h[:{}", long)));
    assert!(fits(&format!("http://h[]:{}", long)));
    assert!(fits(&format!("http://[{}", long)));
    assert!(!fits(&format!("file://{}@h", long)));
}

#[test]
fn schemes_without_such_hosts() {
    let long = format!("{}\u{10ff70}", times("a", 3855));
    for start in ["data:", "mailto:", "foo://", "httpx://", "htt://", "file:", "file:/", "file:///"] {
        assert!(fits(&format!("{}{}", start, long)), "{:?}", start);
        assert!(Url::parse(&format!("{}{}", start, long)).is_ok(), "{:?}", start);
    }
    assert!(fits(&long));
    assert_eq!(Url::parse(&long).unwrap_err(), BadUrl);
    assert!(fits("http"));
    assert!(fits(""));
}
