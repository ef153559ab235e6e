use std::sync::Arc;

use abstract_ns::Address;
use http_follow::peers::{assign_urls, group_addrs, Peer, Resolved};
use http_follow::target::Url;

fn urls(paths: &[&str]) -> Vec<Arc<Url>> {
    paths
        .iter()
        .map(|path| Arc::new(Url::parse(&format!("http://h.example/{}", path)).unwrap()))
        .collect()
}

fn resolved(addresses: &[usize], paths: &[&str]) -> Resolved {
    Resolved { addresses: addresses.to_vec(), urls: urls(paths) }
}

fn shares<A: Ord>(peers: Vec<Peer<A>>) -> Vec<(A, Vec<String>)> {
    let mut shares: Vec<(A, Vec<String>)> = peers
        .into_iter()
        .map(|peer| {
            let mut paths: Vec<String> = peer.urls.iter().map(|url| url.path.clone()).collect();
            paths.sort();
            (peer.addr, paths)
        })
        .collect();
    shares.sort();
    shares
}

/// The peers by the texts of their addresses.
fn by_text(peers: Vec<Peer<Address>>) -> Vec<Peer<String>> {
    peers
        .into_iter()
        .map(|peer| {
            let texts: Vec<String> =
                peer.addr.addresses_at(0).map(|addr| addr.to_string()).collect();
            assert_eq!(texts.len(), 1);
            assert_eq!(peer.addr.addresses_at(1).count(), 0);
            Peer { addr: texts[0].clone(), urls: peer.urls }
        })
        .collect()
}

fn share<A>(addr: A, paths: &[&str]) -> (A, Vec<String>) {
    (addr, paths.iter().map(|path| format!("/{}", path)).collect())
}

#[test]
fn one_address_for_all() {
    let peers = assign_urls(&vec![
        resolved(&[1], &["a", "b"]),
        resolved(&[1], &["c", "a"]),
    ]);
    assert_eq!(shares(peers), vec![share(1, &["a", "b", "c"])]);
}

#[test]
fn each_url_goes_to_one_address() {
    let peers = assign_urls(&vec![resolved(&[1, 2], &["a", "b"])]);
    assert_eq!(peers.len(), 1);
    assert_eq!(peers[0].urls.len(), 2);
}

#[test]
fn least_loaded_address_comes_first() {
    let peers = assign_urls(&vec![
        resolved(&[1, 2], &["a"]),
        resolved(&[1], &["b", "c"]),
        resolved(&[2], &["d"]),
    ]);
    assert_eq!(
        shares(peers),
        vec![share(1, &["b", "c"]), share(2, &["a", "d"])]
    );
}

#[test]
fn addresses_without_urls_are_left_out() {
    let peers = assign_urls(&vec![
        resolved(&[1], &[]),
        resolved(&[], &["a"]),
        resolved(&[2], &["b"]),
    ]);
    assert_eq!(shares(peers), vec![share(2, &["b"])]);
    assert!(assign_urls(&Vec::new()).is_empty());
}

#[test]
fn repeated_addresses_and_urls_count_once() {
    let peers = assign_urls(&vec![
        resolved(&[1, 1], &["a", "a", "a"]),
        resolved(&[2, 1], &["b"]),
    ]);
    assert_eq!(
        shares(peers),
        vec![share(1, &["a"]), share(2, &["b"])]
    );
}

#[test]
fn addresses_of_a_name_service() {
    let first = Address::parse_list(&["127.0.0.1:80", "[::1]:80"]).unwrap();
    let second = Address::parse_list(&["127.0.0.1:80"]).unwrap();
    let peers = group_addrs(vec![(first, urls(&["a"])), (second, urls(&["b"]))]);
    assert_eq!(
        shares(by_text(peers)),
        vec![
            share("127.0.0.1:80".to_string(), &["b"]),
            share("[::1]:80".to_string(), &["a"])
        ]
    );
}

#[test]
fn only_the_highest_priority_counts() {
    let mut builder = abstract_ns::addr::Builder::new();
    builder.add_addresses(&[(1, "10.0.0.1:80".parse().unwrap())]);
    builder.add_addresses(&[(1, "10.0.0.2:80".parse().unwrap())]);
    let peers = group_addrs(vec![(builder.into_address(), urls(&["a"]))]);
    assert_eq!(shares(by_text(peers)), vec![share("10.0.0.1:80".to_string(), &["a"])]);
}

#[test]
fn host_without_addresses() {
    let none: Vec<&str> = Vec::new();
    let peers = group_addrs(vec![(Address::parse_list(&none).unwrap(), urls(&["a"]))]);
    assert!(peers.is_empty());
}
