//! Which address to fetch each URL from.

use std::sync::Arc;

use vstd::prelude::*;

use crate::target::Url;
#[allow(unused_imports)]
use crate::routing::{host_key, is_table, law_each_url_in_one_group, parts, HostUrls};
#[allow(unused_imports)]
use crate::target::UrlParts;

verus! {

/// The addresses of a host, and the URLs on it.
#[derive(Debug)]
pub struct Resolved {
    /// Addresses by number.
    pub addresses: Vec<usize>,
    pub urls: Vec<Arc<Url>>,
}

/// The addresses of a host, and what the URLs on it say.
#[verifier::ext_equal]
pub struct Resolution<K> {
    pub addresses: Seq<K>,
    pub urls: Seq<UrlParts>,
}

impl View for Resolved {
    type V = Resolution<usize>;

    open spec fn view(&self) -> Resolution<usize> {
        Resolution { addresses: self.addresses@, urls: parts(self.urls@) }
    }
}

/// An address, and the URLs to fetch from there.
#[derive(Debug)]
pub struct Peer<K> {
    pub addr: K,
    pub urls: Vec<Arc<Url>>,
}

/// The whole URLs of a list, by which they are told apart.
pub open spec fn hrefs(urls: Seq<Arc<Url>>) -> Seq<Seq<char>> {
    urls.map_values(|url: Arc<Url>| url@.href)
}

/// Whether a URL stands in a list.
pub open spec fn lists(urls: Seq<UrlParts>, href: Seq<char>) -> bool {
    exists|k: int| 0 <= k < urls.len() && (#[trigger] urls[k]).href == href
}

/// Whether a host has this address.
pub open spec fn known<K>(hosts: Seq<Resolution<K>>, addr: K) -> bool {
    exists|i: int| 0 <= i < hosts.len() && (#[trigger] hosts[i]).addresses.contains(addr)
}

/// Whether a URL can be fetched from an address: it is on a host that has the address.
pub open spec fn offers<K>(hosts: Seq<Resolution<K>>, addr: K, href: Seq<char>) -> bool {
    exists|i: int|
        0 <= i < hosts.len() && (#[trigger] hosts[i]).addresses.contains(addr) && lists(
            hosts[i].urls,
            href,
        )
}

/// The URLs that can be fetched from an address.
pub open spec fn offered_at<K>(hosts: Seq<Resolution<K>>, addr: K) -> Set<Seq<char>> {
    Set::new(|href: Seq<char>| offers(hosts, addr, href))
}

/// Shares a URL. Claimed of `Arc::clone`: the URL is the same.
#[verifier::external_body]
fn share(url: &Arc<Url>) -> (r: Arc<Url>)
    ensures
        r == *url,
{
    Arc::clone(url)
}

/// Whether a URL stands in a list.
fn contains_href(urls: &Vec<Arc<Url>>, href: &String) -> (r: bool)
    ensures
        r == hrefs(urls@).contains(href@),
{
    let ghost all = hrefs(urls@);
    let mut i: usize = 0;
    while i < urls.len()
        invariant
            i <= urls@.len(),
            all == hrefs(urls@),
            forall|j: int| 0 <= j < i ==> #[trigger] all[j] != href@,
        decreases urls.len() - i,
    {
        assert(all[i as int] == urls@[i as int]@.href);
        if urls[i].href == *href {
            return true;
        }
        i = i + 1;
    }
    false
}

/// Adds those URLs to a list that do not stand in it yet.
fn merge(urls: &mut Vec<Arc<Url>>, more: &Vec<Arc<Url>>)
    requires
        hrefs(old(urls)@).no_duplicates(),
    ensures
        hrefs(final(urls)@).no_duplicates(),
        forall|href: Seq<char>| #[trigger]
            hrefs(final(urls)@).contains(href) <==> hrefs(old(urls)@).contains(href) || hrefs(
                more@,
            ).contains(href),
        forall|url: UrlParts| #[trigger]
            parts(final(urls)@).contains(url) ==> parts(old(urls)@).contains(url) || parts(
                more@,
            ).contains(url),
{
    let ghost before = urls@;
    let mut i: usize = 0;
    while i < more.len()
        invariant
            i <= more@.len(),
            hrefs(urls@).no_duplicates(),
            forall|href: Seq<char>| #[trigger]
                hrefs(urls@).contains(href) <==> hrefs(before).contains(href) || hrefs(
                    more@.take(i as int),
                ).contains(href),
            forall|url: UrlParts| #[trigger]
                parts(urls@).contains(url) ==> parts(before).contains(url) || parts(
                    more@.take(i as int),
                ).contains(url),
        decreases more.len() - i,
    {
        let ghost head = more@.take(i as int);
        let ghost url = more@[i as int]@;
        let ghost old_urls = urls@;
        proof {
            assert(more@.take(i + 1) =~= head.push(more@[i as int]));
            lemma_push(head, more@[i as int]);
            lemma_push(old_urls, more@[i as int]);
        }
        if !contains_href(urls, &more[i].href) {
            urls.push(share(&more[i]));
        }
        i = i + 1;
    }
    assert(more@.take(i as int) =~= more@);
}

/// What a longer list holds.
proof fn lemma_push(urls: Seq<Arc<Url>>, url: Arc<Url>)
    ensures
        hrefs(urls.push(url)) == hrefs(urls).push(url@.href),
        parts(urls.push(url)) == parts(urls).push(url@),
        forall|href: Seq<char>| #[trigger]
            hrefs(urls.push(url)).contains(href) <==> hrefs(urls).contains(href) || href
                == url@.href,
        forall|p: UrlParts| #[trigger]
            parts(urls.push(url)).contains(p) <==> parts(urls).contains(p) || p == url@,
        hrefs(urls).no_duplicates() && !hrefs(urls).contains(url@.href) ==> hrefs(
            urls.push(url),
        ).no_duplicates(),
{
    broadcast use vstd::seq_lib::group_seq_properties;

    assert(hrefs(urls.push(url)) =~= hrefs(urls).push(url@.href));
    assert(parts(urls.push(url)) =~= parts(urls).push(url@));
}

/// What a list of hosts says.
pub open spec fn resolutions(hosts: Seq<Resolved>) -> Seq<Resolution<usize>> {
    hosts.map_values(|host: Resolved| host@)
}

/// Whether the first `n` hosts, or the first `m` addresses of the next one, hold an address.
spec fn known_upto<K>(hosts: Seq<Resolution<K>>, n: int, m: int, addr: K) -> bool {
    known(hosts.take(n), addr) || (n < hosts.len() && hosts[n].addresses.take(m).contains(addr))
}

/// Whether the first `n` hosts, or the next one by its first `m` addresses, offer a URL.
spec fn offers_upto<K>(
    hosts: Seq<Resolution<K>>,
    n: int,
    m: int,
    addr: K,
    href: Seq<char>,
) -> bool {
    offers(hosts.take(n), addr, href) || (n < hosts.len() && hosts[n].addresses.take(m).contains(
        addr,
    ) && lists(hosts[n].urls, href))
}

/// Whether a URL is one of a host that has the address.
pub open spec fn supplied<K>(hosts: Seq<Resolution<K>>, addr: K, url: UrlParts) -> bool {
    exists|i: int|
        0 <= i < hosts.len() && (#[trigger] hosts[i]).addresses.contains(addr)
            && hosts[i].urls.contains(url)
}

/// Whether a table holds every address seen so far once, with the URLs that it offers.
spec fn is_load_table<K>(table: Seq<Peer<K>>, hosts: Seq<Resolution<K>>, n: int, m: int) -> bool {
    &&& forall|s: int, t: int|
        0 <= s < t < table.len() ==> (#[trigger] table[s]).addr != (#[trigger] table[t]).addr
    &&& forall|t: int|
        0 <= t < table.len() ==> known_upto(hosts, n, m, (#[trigger] table[t]).addr)
    &&& forall|addr: K| #[trigger]
        known_upto(hosts, n, m, addr) ==> exists|t: int|
            0 <= t < table.len() && (#[trigger] table[t]).addr == addr
    &&& forall|t: int|
        0 <= t < table.len() ==> hrefs((#[trigger] table[t]).urls@).no_duplicates()
    &&& forall|t: int, href: Seq<char>|
        0 <= t < table.len() ==> (#[trigger] hrefs(table[t].urls@).contains(href) <==> offers_upto(
            hosts,
            n,
            m,
            table[t].addr,
            href,
        ))
    &&& forall|t: int, url: UrlParts|
        0 <= t < table.len() && #[trigger] parts(table[t].urls@).contains(url) ==> supplied(
            hosts,
            table[t].addr,
            url,
        )
}

/// Enters the URLs that an address offers.
fn enter(
    table: &mut Vec<Peer<usize>>,
    addr: usize,
    urls: &Vec<Arc<Url>>,
    Ghost(hosts): Ghost<Seq<Resolution<usize>>>,
    Ghost(n): Ghost<int>,
    Ghost(m): Ghost<int>,
)
    requires
        is_load_table(old(table)@, hosts, n, m),
        0 <= n < hosts.len(),
        0 <= m < hosts[n].addresses.len(),
        addr == hosts[n].addresses[m],
        parts(urls@) == hosts[n].urls,
    ensures
        is_load_table(final(table)@, hosts, n, m + 1),
{
    let ghost before = table@;
    let mut t: usize = 0;
    while t < table.len()
        invariant
            t <= table@.len(),
            table@ == before,
            forall|j: int| 0 <= j < t ==> (#[trigger] before[j]).addr != addr,
        ensures
            t <= table@.len(),
            t < table@.len() ==> table@[t as int].addr == addr,
            t == table@.len() ==> forall|j: int|
                0 <= j < before.len() ==> (#[trigger] before[j]).addr != addr,
        decreases table.len() - t,
    {
        if table[t].addr == addr {
            break;
        }
        t = t + 1;
    }
    if t == table.len() {
        table.push(Peer { addr, urls: Vec::new() });
        assert(hrefs(table@[t as int].urls@) =~= Seq::empty());
        assert(parts(table@[t as int].urls@) =~= Seq::empty());
    }
    let ghost middle = table@;
    assert(t == before.len() ==> middle.take(t as int) =~= before);
    merge(&mut table[t].urls, urls);
    proof {
        lemma_enter(before, middle, table@, t as int, addr, urls@, hosts, n, m);
    }
}

/// Why entering the URLs of one more address keeps the table.
proof fn lemma_enter<K>(
    before: Seq<Peer<K>>,
    middle: Seq<Peer<K>>,
    now: Seq<Peer<K>>,
    at: int,
    addr: K,
    urls: Seq<Arc<Url>>,
    hosts: Seq<Resolution<K>>,
    n: int,
    m: int,
)
    requires
        is_load_table(before, hosts, n, m),
        0 <= n < hosts.len(),
        0 <= m < hosts[n].addresses.len(),
        addr == hosts[n].addresses[m],
        parts(urls) == hosts[n].urls,
        0 <= at < middle.len(),
        middle.len() == now.len(),
        middle[at].addr == addr,
        at < before.len() ==> middle == before,
        at == before.len() ==> {
            &&& middle.len() == before.len() + 1
            &&& middle.take(at) == before
            &&& middle[at].urls@.len() == 0
            &&& forall|j: int| 0 <= j < before.len() ==> (#[trigger] before[j]).addr != addr
        },
        at <= before.len(),
        now[at].addr == addr,
        forall|t: int| 0 <= t < now.len() && t != at ==> #[trigger] now[t] == middle[t],
        hrefs(now[at].urls@).no_duplicates(),
        forall|href: Seq<char>| #[trigger]
            hrefs(now[at].urls@).contains(href) <==> hrefs(middle[at].urls@).contains(href)
                || hrefs(urls).contains(href),
        forall|url: UrlParts| #[trigger]
            parts(now[at].urls@).contains(url) ==> parts(middle[at].urls@).contains(url) || parts(
                urls,
            ).contains(url),
    ensures
        is_load_table(now, hosts, n, m + 1),
{
    let host = hosts[n];
    assert(host.addresses.take(m + 1) =~= host.addresses.take(m).push(addr));
    assert forall|a: K| #[trigger]
        host.addresses.take(m + 1).contains(a) <==> host.addresses.take(m).contains(a) || a
            == addr by {
        let shorter = host.addresses.take(m);
        let longer = host.addresses.take(m + 1);
        if shorter.contains(a) {
            let i = choose|i: int| 0 <= i < shorter.len() && shorter[i] == a;
            assert(longer[i] == a);
        }
        if a == addr {
            assert(longer[m] == a);
        }
        if longer.contains(a) && a != addr {
            let i = choose|i: int| 0 <= i < longer.len() && longer[i] == a;
            assert(shorter[i] == a);
        }
    }
    assert(host.addresses.contains(addr));
    assert forall|href: Seq<char>| hrefs(urls).contains(href) <==> #[trigger] lists(
        host.urls,
        href,
    ) by {
        if hrefs(urls).contains(href) {
            let k = choose|k: int| 0 <= k < hrefs(urls).len() && hrefs(urls)[k] == href;
            assert(host.urls[k] == parts(urls)[k]);
            assert(host.urls[k].href == href);
        }
        if lists(host.urls, href) {
            let k = choose|k: int| 0 <= k < host.urls.len() && (#[trigger] host.urls[k]).href == href;
            assert(hrefs(urls)[k] == href);
        }
    }
    assert forall|t: int| 0 <= t < before.len() implies (#[trigger] now[t]).addr
        == before[t].addr by {
        if t != at {
            assert(now[t] == middle[t]);
            if at == before.len() {
                assert(middle.take(at)[t] == middle[t]);
            }
        }
    }
    assert forall|t: int| 0 <= t < before.len() && t != at implies #[trigger] now[t]
        == before[t] by {
        assert(now[t] == middle[t]);
        if at == before.len() {
            assert(middle.take(at)[t] == middle[t]);
        }
    }
    assert forall|s: int, t: int| 0 <= s < t < now.len() implies (#[trigger] now[s]).addr != (
    #[trigger] now[t]).addr by {
        if t < before.len() {
            assert(before[s].addr != before[t].addr);
        } else {
            assert(before[s].addr != addr);
        }
    }
    assert forall|t: int| 0 <= t < now.len() implies known_upto(
        hosts,
        n,
        m + 1,
        (#[trigger] now[t]).addr,
    ) by {
        if t < before.len() {
            assert(known_upto(hosts, n, m, before[t].addr));
        }
    }
    assert forall|a: K| #[trigger] known_upto(hosts, n, m + 1, a) implies exists|t: int|
        0 <= t < now.len() && (#[trigger] now[t]).addr == a by {
        if a == addr {
            assert(now[at].addr == a);
        } else {
            assert(known_upto(hosts, n, m, a));
            let t = choose|t: int| 0 <= t < before.len() && (#[trigger] before[t]).addr == a;
            assert(now[t].addr == a);
        }
    }
    assert forall|t: int| 0 <= t < now.len() implies hrefs(
        (#[trigger] now[t]).urls@,
    ).no_duplicates() by {
        if t != at {
            assert(now[t] == before[t]);
        }
    }
    assert forall|t: int, href: Seq<char>|
        0 <= t < now.len() implies (#[trigger] hrefs(now[t].urls@).contains(href) <==> offers_upto(
        hosts,
        n,
        m + 1,
        now[t].addr,
        href,
    )) by {
        if t != at {
            assert(now[t] == before[t]);
            assert(now[t].addr != now[at].addr);
            assert(hrefs(before[t].urls@).contains(href) <==> offers_upto(
                hosts,
                n,
                m,
                before[t].addr,
                href,
            ));
        } else {
            assert(hrefs(urls).contains(href) <==> lists(host.urls, href));
            if at < before.len() {
                assert(hrefs(before[at].urls@).contains(href) <==> offers_upto(
                    hosts,
                    n,
                    m,
                    addr,
                    href,
                ));
            } else {
                assert(hrefs(middle[at].urls@).len() == 0);
                if offers(hosts.take(n), addr, href) {
                    let i = choose|i: int|
                        0 <= i < hosts.take(n).len() && (
                        #[trigger] hosts.take(n)[i]).addresses.contains(addr) && lists(
                            hosts.take(n)[i].urls,
                            href,
                        );
                    assert(known(hosts.take(n), addr));
                    assert(known_upto(hosts, n, m, addr));
                }
            }
        }
    }
    assert forall|t: int, url: UrlParts|
        0 <= t < now.len() && #[trigger] parts(now[t].urls@).contains(url) implies supplied(
        hosts,
        now[t].addr,
        url,
    ) by {
        if t != at {
            assert(now[t] == before[t]);
            assert(parts(before[t].urls@).contains(url));
        } else if parts(urls).contains(url) {
            assert(hosts[n].addresses.contains(addr) && hosts[n].urls.contains(url));
        } else {
            assert(parts(middle[at].urls@).contains(url));
            assert(at < before.len());
            assert(parts(before[at].urls@).contains(url));
        }
    }
}

/// Lists every address with the URLs that it offers.
fn load_table(hosts: &Vec<Resolved>) -> (table: Vec<Peer<usize>>)
    ensures
        is_load_table(table@, resolutions(hosts@), hosts@.len() as int, 0),
{
    let ghost all = resolutions(hosts@);
    let mut table: Vec<Peer<usize>> = Vec::new();
    let mut n: usize = 0;
    while n < hosts.len()
        invariant
            n <= hosts@.len(),
            all == resolutions(hosts@),
            is_load_table(table@, all, n as int, 0),
        decreases hosts.len() - n,
    {
        let host: &Resolved = &hosts[n];
        assert(all[n as int] == host@);
        let mut m: usize = 0;
        while m < host.addresses.len()
            invariant
                n < hosts@.len(),
                m <= host.addresses@.len(),
                host == hosts@[n as int],
                all == resolutions(hosts@),
                all[n as int] == host@,
                is_load_table(table@, all, n as int, m as int),
            decreases host.addresses.len() - m,
        {
            enter(
                &mut table,
                host.addresses[m],
                &host.urls,
                Ghost(all),
                Ghost(n as int),
                Ghost(m as int),
            );
            m = m + 1;
        }
        proof {
            lemma_next_host(table@, all, n as int);
        }
        n = n + 1;
    }
    table
}

/// Having seen all addresses of a host is having seen the host.
proof fn lemma_next_host<K>(table: Seq<Peer<K>>, hosts: Seq<Resolution<K>>, n: int)
    requires
        0 <= n < hosts.len(),
        is_load_table(table, hosts, n, hosts[n].addresses.len() as int),
    ensures
        is_load_table(table, hosts, n + 1, 0),
{
    let m = hosts[n].addresses.len() as int;
    assert(hosts[n].addresses.take(m) =~= hosts[n].addresses);
    let shorter = hosts.take(n);
    let longer = hosts.take(n + 1);
    assert forall|addr: K| #[trigger]
        known_upto(hosts, n + 1, 0, addr) <==> known_upto(hosts, n, m, addr) by {
        if known(shorter, addr) {
            let i = choose|i: int|
                0 <= i < shorter.len() && (#[trigger] shorter[i]).addresses.contains(addr);
            assert(longer[i].addresses.contains(addr));
        }
        if hosts[n].addresses.contains(addr) {
            assert(longer[n].addresses.contains(addr));
        }
        if known(longer, addr) {
            let i = choose|i: int|
                0 <= i < longer.len() && (#[trigger] longer[i]).addresses.contains(addr);
            if i < n {
                assert(shorter[i].addresses.contains(addr));
            }
        }
    }
    assert forall|addr: K, href: Seq<char>| #[trigger]
        offers_upto(hosts, n + 1, 0, addr, href) <==> offers_upto(hosts, n, m, addr, href) by {
        if offers(shorter, addr, href) {
            let i = choose|i: int|
                0 <= i < shorter.len() && (#[trigger] shorter[i]).addresses.contains(addr)
                    && lists(shorter[i].urls, href);
            assert(longer[i].addresses.contains(addr));
        }
        if hosts[n].addresses.contains(addr) && lists(hosts[n].urls, href) {
            assert(longer[n].addresses.contains(addr));
        }
        if offers(longer, addr, href) {
            let i = choose|i: int|
                0 <= i < longer.len() && (#[trigger] longer[i]).addresses.contains(addr) && lists(
                    longer[i].urls,
                    href,
                );
            if i < n {
                assert(shorter[i].addresses.contains(addr));
            }
        }
    }
}

/// The addresses of the hosts, each once, those that offer fewer URLs first.
pub open spec fn is_load_order<K>(hosts: Seq<Resolution<K>>, order: Seq<K>) -> bool {
    &&& order.no_duplicates()
    &&& forall|addr: K| #[trigger] order.contains(addr) <==> known(hosts, addr)
    &&& forall|i: int, j: int|
        0 <= i < j < order.len() ==> offered_at(hosts, #[trigger] order[i]).len() <= offered_at(
            hosts,
            #[trigger] order[j],
        ).len()
}

/// Whether a URL falls to the address in the `k`th place: it is offered there, and at no
/// address before.
pub open spec fn falls_to<K>(
    hosts: Seq<Resolution<K>>,
    order: Seq<K>,
    k: int,
    href: Seq<char>,
) -> bool {
    &&& offers(hosts, order[k], href)
    &&& forall|j: int| 0 <= j < k ==> !offers(hosts, #[trigger] order[j], href)
}

/// Whether a peer has an address and the URLs that fall to it, each once.
pub open spec fn has_share<K>(
    hosts: Seq<Resolution<K>>,
    order: Seq<K>,
    k: int,
    peer: Peer<K>,
) -> bool {
    &&& peer.addr == order[k]
    &&& peer.urls@.len() > 0
    &&& hrefs(peer.urls@).no_duplicates()
    &&& forall|href: Seq<char>| #[trigger]
        hrefs(peer.urls@).contains(href) <==> falls_to(hosts, order, k, href)
    &&& forall|url: UrlParts| #[trigger]
        parts(peer.urls@).contains(url) ==> supplied(hosts, peer.addr, url)
}

/// Whether a peer has one of the first `n` addresses and the URLs that fall to it.
pub open spec fn has_some_share<K>(
    hosts: Seq<Resolution<K>>,
    order: Seq<K>,
    n: int,
    peer: Peer<K>,
) -> bool {
    exists|k: int| 0 <= k < n && #[trigger] has_share(hosts, order, k, peer)
}

/// Whether `peers` holds each of the first `n` addresses to which a URL falls, once, with
/// those URLs.
pub open spec fn is_split<K>(
    hosts: Seq<Resolution<K>>,
    order: Seq<K>,
    n: int,
    peers: Seq<Peer<K>>,
) -> bool {
    &&& forall|p: int, q: int|
        0 <= p < q < peers.len() ==> (#[trigger] peers[p]).addr != (#[trigger] peers[q]).addr
    &&& forall|p: int|
        0 <= p < peers.len() ==> has_some_share(hosts, order, n, #[trigger] peers[p])
    &&& forall|k: int, href: Seq<char>|
        0 <= k < n && #[trigger] falls_to(hosts, order, k, href) ==> exists|p: int|
            0 <= p < peers.len() && (#[trigger] peers[p]).addr == order[k]
}

/// Whether every URL is fetched from the first address that offers it, when the addresses
/// are put in some order in which those that offer fewer URLs come first.
pub open spec fn is_assignment<K>(hosts: Seq<Resolution<K>>, peers: Seq<Peer<K>>) -> bool {
    exists|order: Seq<K>| #[trigger]
        is_load_order(hosts, order) && is_split(hosts, order, order.len() as int, peers)
}

/// The places of a table, those with fewer URLs first.
fn load_order(table: &Vec<Peer<usize>>) -> (order: Vec<usize>)
    ensures
        order@.len() == table@.len(),
        order@.no_duplicates(),
        forall|i: int| 0 <= i < order@.len() ==> #[trigger] order@[i] < table@.len(),
        forall|t: usize| t < table@.len() ==> #[trigger] order@.contains(t),
        forall|i: int, j: int|
            0 <= i < j < order@.len() ==> table@[#[trigger] order@[i] as int].urls@.len()
                <= table@[#[trigger] order@[j] as int].urls@.len(),
{
    let mut order: Vec<usize> = Vec::new();
    let mut t: usize = 0;
    while t < table.len()
        invariant
            t <= table@.len(),
            order@.len() == t,
            order@.no_duplicates(),
            forall|i: int| 0 <= i < order@.len() ==> #[trigger] order@[i] < t,
            forall|s: usize| s < t ==> #[trigger] order@.contains(s),
            forall|i: int, j: int|
                0 <= i < j < order@.len() ==> table@[#[trigger] order@[i] as int].urls@.len()
                    <= table@[#[trigger] order@[j] as int].urls@.len(),
        decreases table.len() - t,
    {
        let mut place: usize = t;
        while place > 0 && table[order[place - 1]].urls.len() > table[t].urls.len()
            invariant
                place <= t < table@.len(),
                order@.len() == t,
                forall|i: int| 0 <= i < order@.len() ==> #[trigger] order@[i] < t,
                forall|i: int|
                    place <= i < t ==> table@[#[trigger] order@[i] as int].urls@.len()
                        > table@[t as int].urls@.len(),
            decreases place,
        {
            place = place - 1;
        }
        let ghost before = order@;
        order.insert(place, t);
        proof {
            before.insert_ensures(place as int, t);
            let now = order@;
            assert forall|s: usize| s <= t implies #[trigger] now.contains(s) by {
                if s == t {
                    assert(now[place as int] == s);
                } else {
                    assert(before.contains(s));
                    let i = choose|i: int| 0 <= i < before.len() && before[i] == s;
                    if i < place {
                        assert(now[i] == s);
                    } else {
                        assert(now[i + 1] == s);
                    }
                }
            }
            assert forall|i: int, j: int| 0 <= i < j < now.len() implies table@[
                #[trigger] now[i] as int].urls@.len() <= table@[
                #[trigger] now[j] as int].urls@.len() by {
                let a = if i < place {
                    i
                } else {
                    i - 1
                };
                let b = if j < place {
                    j
                } else {
                    j - 1
                };
                if i != place && j != place {
                    assert(now[i] == before[a]);
                    assert(now[j] == before[b]);
                } else if i == place {
                    assert(now[j] == before[b]);
                } else {
                    assert(now[i] == before[a]);
                    assert(place > 0);
                    if a < place - 1 {
                        assert(table@[before[a] as int].urls@.len() <= table@[
                            before[place - 1] as int].urls@.len());
                    }
                }
            }
        }
        t = t + 1;
    }
    order
}

/// The URLs of a list that do not stand in another one.
fn difference(urls: &Vec<Arc<Url>>, others: &Vec<Arc<Url>>) -> (r: Vec<Arc<Url>>)
    requires
        hrefs(urls@).no_duplicates(),
    ensures
        hrefs(r@).no_duplicates(),
        forall|href: Seq<char>| #[trigger]
            hrefs(r@).contains(href) <==> hrefs(urls@).contains(href) && !hrefs(others@).contains(
                href,
            ),
        forall|url: UrlParts| #[trigger]
            parts(r@).contains(url) ==> parts(urls@).contains(url),
{
    let mut r: Vec<Arc<Url>> = Vec::new();
    let mut i: usize = 0;
    while i < urls.len()
        invariant
            i <= urls@.len(),
            hrefs(urls@).no_duplicates(),
            hrefs(r@).no_duplicates(),
            forall|href: Seq<char>| #[trigger]
                hrefs(r@).contains(href) <==> hrefs(urls@.take(i as int)).contains(href)
                    && !hrefs(others@).contains(href),
            forall|url: UrlParts| #[trigger]
                parts(r@).contains(url) ==> parts(urls@).contains(url),
        decreases urls.len() - i,
    {
        let ghost head = urls@.take(i as int);
        let ghost url = urls@[i as int];
        proof {
            assert(urls@.take(i + 1) =~= head.push(url));
            lemma_push(head, url);
            lemma_push(r@, url);
            assert(parts(urls@)[i as int] == url@);
            if hrefs(head).contains(url@.href) {
                let j = choose|j: int| 0 <= j < hrefs(head).len() && hrefs(head)[j] == url@.href;
                assert(hrefs(urls@)[j] == hrefs(urls@)[i as int]);
            }
        }
        if !contains_href(others, &urls[i].href) {
            r.push(share(&urls[i]));
        }
        i = i + 1;
    }
    assert(urls@.take(i as int) =~= urls@);
    r
}

/// What a finished table says, without regard to how far it was built.
proof fn lemma_finished_table<K>(table: Seq<Peer<K>>, hosts: Seq<Resolution<K>>)
    requires
        is_load_table(table, hosts, hosts.len() as int, 0),
    ensures
        forall|addr: K| #[trigger]
            known(hosts, addr) ==> exists|t: int|
                0 <= t < table.len() && (#[trigger] table[t]).addr == addr,
        forall|t: int| 0 <= t < table.len() ==> known(hosts, (#[trigger] table[t]).addr),
        forall|t: int, href: Seq<char>|
            0 <= t < table.len() ==> (#[trigger] hrefs(table[t].urls@).contains(href) <==> offers(
                hosts,
                table[t].addr,
                href,
            )),
        forall|t: int|
            0 <= t < table.len() ==> offered_at(hosts, (#[trigger] table[t]).addr).len()
                == table[t].urls@.len(),
{
    let n = hosts.len() as int;
    assert(hosts.take(n) =~= hosts);
    assert forall|addr: K| #[trigger] known(hosts, addr) implies exists|t: int|
        0 <= t < table.len() && (#[trigger] table[t]).addr == addr by {
        assert(known_upto(hosts, n, 0, addr));
    }
    assert forall|t: int, href: Seq<char>|
        0 <= t < table.len() implies (#[trigger] hrefs(table[t].urls@).contains(href) <==> offers(
        hosts,
        table[t].addr,
        href,
    )) by {
        assert(offers_upto(hosts, n, 0, table[t].addr, href) <==> offers(
            hosts,
            table[t].addr,
            href,
        ));
    }
    assert forall|t: int| 0 <= t < table.len() implies offered_at(
        hosts,
        (#[trigger] table[t]).addr,
    ).len() == table[t].urls@.len() by {
        let all = hrefs(table[t].urls@);
        assert(all.to_set() =~= offered_at(hosts, table[t].addr)) by {
            assert forall|href: Seq<char>| #[trigger] all.to_set().contains(href) <==> offered_at(
                hosts,
                table[t].addr,
            ).contains(href) by {
                assert(all.contains(href) <==> offers(hosts, table[t].addr, href));
            }
        }
        all.unique_seq_to_set();
    }
}

/// The addresses of a table in an order of its places.
spec fn addresses_in<K>(table: Seq<Peer<K>>, order: Seq<usize>) -> Seq<K> {
    order.map_values(|t: usize| table[t as int].addr)
}

/// An order of the places of a table is one of its addresses.
proof fn lemma_load_order<K>(hosts: Seq<Resolution<K>>, table: Seq<Peer<K>>, order: Seq<usize>)
    requires
        is_load_table(table, hosts, hosts.len() as int, 0),
        table.len() <= usize::MAX,
        order.len() == table.len(),
        order.no_duplicates(),
        forall|i: int| 0 <= i < order.len() ==> #[trigger] order[i] < table.len(),
        forall|t: usize| t < table.len() ==> #[trigger] order.contains(t),
        forall|i: int, j: int|
            0 <= i < j < order.len() ==> table[#[trigger] order[i] as int].urls@.len()
                <= table[#[trigger] order[j] as int].urls@.len(),
    ensures
        is_load_order(hosts, addresses_in(table, order)),
{
    let addrs = addresses_in(table, order);
    lemma_finished_table(table, hosts);
    assert forall|k: int| 0 <= k < order.len() implies #[trigger] addrs[k]
        == table[order[k] as int].addr by {}
    assert forall|addr: K| #[trigger] addrs.contains(addr) <==> known(hosts, addr) by {
        if addrs.contains(addr) {
            let k = choose|k: int| 0 <= k < addrs.len() && addrs[k] == addr;
            assert(known(hosts, table[order[k] as int].addr));
        }
        if known(hosts, addr) {
            let t = choose|t: int| 0 <= t < table.len() && (#[trigger] table[t]).addr == addr;
            let place = t as usize;
            assert(order.contains(place));
            let k = choose|k: int| 0 <= k < order.len() && order[k] == place;
            assert(addrs[k] == table[order[k] as int].addr);
        }
    }
    assert forall|i: int, j: int| 0 <= i < addrs.len() && 0 <= j < addrs.len() && i
        != j implies addrs[i] != addrs[j] by {
        let s = order[i] as int;
        let t = order[j] as int;
        assert(order[i] != order[j]);
        assert(table[s].addr != table[t].addr);
    }
    assert forall|i: int, j: int| 0 <= i < j < addrs.len() implies offered_at(
        hosts,
        #[trigger] addrs[i],
    ).len() <= offered_at(hosts, #[trigger] addrs[j]).len() by {
        assert(addrs[i] == table[order[i] as int].addr);
        assert(addrs[j] == table[order[j] as int].addr);
    }
}

/// Puts every URL to one address: to one that offers as few URLs as possible.
pub fn assign_urls(hosts: &Vec<Resolved>) -> (peers: Vec<Peer<usize>>)
    ensures
        is_assignment(resolutions(hosts@), peers@),
{
    let ghost all = resolutions(hosts@);
    let table: Vec<Peer<usize>> = load_table(hosts);
    let order: Vec<usize> = load_order(&table);
    let ghost addrs = addresses_in(table@, order@);
    proof {
        lemma_finished_table(table@, all);
        assert(table.len() == table@.len());
        lemma_load_order(all, table@, order@);
    }
    let mut peers: Vec<Peer<usize>> = Vec::new();
    let mut visited: Vec<Arc<Url>> = Vec::new();
    let mut k: usize = 0;
    assert(hrefs(visited@) =~= Seq::empty());
    while k < order.len()
        invariant
            k <= order@.len(),
            order@.len() == table@.len(),
            addrs == addresses_in(table@, order@),
            addrs.no_duplicates(),
            forall|i: int| 0 <= i < order@.len() ==> #[trigger] order@[i] < table@.len(),
            is_load_table(table@, all, all.len() as int, 0),
            forall|t: int, href: Seq<char>|
                0 <= t < table@.len() ==> (#[trigger] hrefs(table@[t].urls@).contains(href)
                    <==> offers(all, table@[t].addr, href)),
            hrefs(visited@).no_duplicates(),
            forall|href: Seq<char>| #[trigger]
                hrefs(visited@).contains(href) <==> exists|j: int|
                    0 <= j < k && offers(all, #[trigger] addrs[j], href),
            is_split(all, addrs, k as int, peers@),
        decreases order.len() - k,
    {
        let entry: &Peer<usize> = &table[order[k]];
        assert(addrs[k as int] == entry.addr);
        let urls: Vec<Arc<Url>> = difference(&entry.urls, &visited);
        let ghost old_visited = visited@;
        let ghost old_peers = peers@;
        proof {
            assert forall|href: Seq<char>| #[trigger]
                hrefs(urls@).contains(href) <==> falls_to(all, addrs, k as int, href) by {
                assert(hrefs(entry.urls@).contains(href) <==> offers(all, entry.addr, href));
                assert(hrefs(old_visited).contains(href) <==> exists|j: int|
                    0 <= j < k && offers(all, #[trigger] addrs[j], href));
            }
        }
        if urls.len() > 0 {
            merge(&mut visited, &urls);
            peers.push(Peer { addr: entry.addr, urls });
            proof {
                let peer = peers@.last();
                assert(has_share(all, addrs, k as int, peer));
                assert forall|p: int, q: int| 0 <= p < q < peers@.len() implies (
                #[trigger] peers@[p]).addr != (#[trigger] peers@[q]).addr by {
                    assert(peers@[p] == old_peers[p]);
                    assert(has_some_share(all, addrs, k as int, old_peers[p]));
                    let i = choose|i: int|
                        0 <= i < k && #[trigger] has_share(all, addrs, i, old_peers[p]);
                    if q < old_peers.len() {
                        assert(peers@[q] == old_peers[q]);
                    } else {
                        assert(addrs[i] != addrs[k as int]);
                    }
                }
            }
        }
        proof {
            assert forall|i: int, href: Seq<char>|
                0 <= i < k + 1 && #[trigger] falls_to(all, addrs, i, href) implies exists|p: int|
                0 <= p < peers@.len() && (#[trigger] peers@[p]).addr == addrs[i] by {
                if i < k {
                    let p = choose|p: int|
                        0 <= p < old_peers.len() && (#[trigger] old_peers[p]).addr == addrs[i];
                    assert(peers@[p] == old_peers[p]);
                } else {
                    assert(hrefs(urls@).contains(href));
                    assert(urls@.len() > 0);
                    assert(peers@[peers@.len() - 1].addr == addrs[i]);
                }
            }
            assert forall|href: Seq<char>| #[trigger]
                hrefs(visited@).contains(href) <==> exists|j: int|
                    0 <= j < k + 1 && offers(all, #[trigger] addrs[j], href) by {
                assert(hrefs(old_visited).contains(href) <==> exists|j: int|
                    0 <= j < k && offers(all, #[trigger] addrs[j], href));
                assert(hrefs(urls@).contains(href) <==> falls_to(all, addrs, k as int, href));
                if urls@.len() == 0 {
                    assert(!hrefs(urls@).contains(href));
                }
                if offers(all, addrs[k as int], href) {
                    assert(hrefs(visited@).contains(href));
                }
            }
            assert forall|p: int| 0 <= p < peers@.len() implies has_some_share(
                all,
                addrs,
                k + 1,
                #[trigger] peers@[p],
            ) by {
                if p < old_peers.len() {
                    assert(peers@[p] == old_peers[p]);
                    assert(has_some_share(all, addrs, k as int, old_peers[p]));
                    let i = choose|i: int|
                        0 <= i < k && #[trigger] has_share(all, addrs, i, old_peers[p]);
                    assert(has_share(all, addrs, i, peers@[p]));
                } else {
                    assert(has_share(all, addrs, k as int, peers@[p]));
                }
            }
        }
        k = k + 1;
    }
    peers
}

/// The addresses that a name service has found for a host.
#[verifier::external_type_specification]
#[verifier::external_body]
pub struct ExAddress(abstract_ns::Address);

/// What tells one socket address from another.
#[verifier::ext_equal]
pub struct Place {
    /// The address with its port, and its scope if it has one, such as `127.0.0.1:80`.
    pub text: Seq<char>,
    /// What the text of an IPv6 address leaves out. Zero for IPv4.
    pub flow_label: u32,
}

/// The socket addresses in an `abstract_ns::Address`, by falling priority.
pub uninterp spec fn address_levels(address: abstract_ns::Address) -> Seq<Seq<Place>>;

/// The socket addresses of a priority.
pub open spec fn level(address: abstract_ns::Address, priority: int) -> Seq<Place> {
    if 0 <= priority < address_levels(address).len() {
        address_levels(address)[priority]
    } else {
        Seq::empty()
    }
}

/// Whether there is one socket address, and nothing else, in an address.
pub open spec fn is_single(address: abstract_ns::Address) -> bool {
    address_levels(address).len() == 1 && address_levels(address)[0].len() == 1
}

/// The socket address in an address that holds one.
pub open spec fn place(address: abstract_ns::Address) -> Place {
    address_levels(address)[0][0]
}

/// Calls `abstract_ns::Address::addresses_at`, and makes an `abstract_ns::Address` of each
/// socket address. Claimed of it: it gives the socket addresses of the priority in their order,
/// and none if there is no such priority.
#[verifier::external_body]
fn addresses_at(address: &abstract_ns::Address, priority: usize) -> (r: Vec<abstract_ns::Address>)
    ensures
        r@.len() == level(*address, priority as int).len(),
        forall|i: int|
            0 <= i < r@.len() ==> address_levels(#[trigger] r@[i]) == seq![
                seq![level(*address, priority as int)[i]],
            ],
{
    address.addresses_at(priority).map(abstract_ns::Address::from).collect()
}

/// Calls `abstract_ns::addr::WeightedSet::compare_addresses` on the socket addresses of the
/// highest priority, and counts what it gives first. Claimed of it: it gives those of the one
/// that are not among those of the other.
#[verifier::external_body]
fn count_missing(address: &abstract_ns::Address, other: &abstract_ns::Address) -> (r: usize)
    ensures
        r == level(*address, 0).filter(|p: Place| !level(*other, 0).contains(p)).len(),
{
    address.at(0).compare_addresses(&other.at(0)).0.len()
}

/// Tells whether two addresses hold the same socket address.
fn is_same(address: &abstract_ns::Address, other: &abstract_ns::Address) -> (r: bool)
    requires
        is_single(*address),
        is_single(*other),
    ensures
        r == (place(*address) == place(*other)),
{
    proof {
        let missing = |p: Place| !level(*other, 0).contains(p);
        let all = level(*address, 0);
        reveal_with_fuel(Seq::filter, 2);
        assert(all.drop_last() =~= Seq::empty());
        assert(all.last() == place(*address));
        assert(level(*other, 0).contains(place(*address)) <==> place(*address) == place(*other))
            by {
            assert(level(*other, 0)[0] == place(*other));
        }
    }
    count_missing(address, other) == 0
}

/// The socket addresses in addresses that hold one each.
pub open spec fn places(addresses: Seq<abstract_ns::Address>) -> Seq<Place> {
    addresses.map_values(|address: abstract_ns::Address| place(address))
}

/// Whether addresses hold one socket address each, and no two the same.
spec fn is_numbering(addresses: Seq<abstract_ns::Address>) -> bool {
    &&& forall|i: int| 0 <= i < addresses.len() ==> is_single(#[trigger] addresses[i])
    &&& places(addresses).no_duplicates()
}

/// Gives an address the number of the same one among those that have a number, or the next one.
fn number(numbered: &mut Vec<abstract_ns::Address>, address: abstract_ns::Address) -> (r: usize)
    requires
        is_numbering(old(numbered)@),
        is_single(address),
    ensures
        is_numbering(final(numbered)@),
        places(old(numbered)@).is_prefix_of(places(final(numbered)@)),
        r < final(numbered)@.len(),
        places(final(numbered)@)[r as int] == place(address),
{
    let ghost before = numbered@;
    let mut n: usize = 0;
    while n < numbered.len()
        invariant
            n <= numbered@.len(),
            numbered@ == before,
            is_numbering(before),
            is_single(address),
            forall|i: int| 0 <= i < n ==> #[trigger] places(before)[i] != place(address),
        decreases numbered.len() - n,
    {
        if is_same(&address, &numbered[n]) {
            return n;
        }
        n += 1;
    }
    numbered.push(address);
    proof {
        assert(places(numbered@) =~= places(before).push(place(address)));
    }
    n
}

/// Numbers the addresses of a host.
fn number_all(
    numbered: &mut Vec<abstract_ns::Address>,
    addresses: Vec<abstract_ns::Address>,
) -> (r: Vec<usize>)
    requires
        is_numbering(old(numbered)@),
        forall|i: int| 0 <= i < addresses@.len() ==> is_single(#[trigger] addresses@[i]),
    ensures
        is_numbering(final(numbered)@),
        places(old(numbered)@).is_prefix_of(places(final(numbered)@)),
        r@.len() == addresses@.len(),
        forall|i: int|
            0 <= i < r@.len() ==> {
                &&& #[trigger] r@[i] < final(numbered)@.len()
                &&& places(final(numbered)@)[r@[i] as int] == place(addresses@[i])
            },
{
    let ghost list = addresses@;
    let ghost before = numbered@;
    let mut r: Vec<usize> = Vec::new();
    for address in it: addresses
        invariant
            it.seq() == list,
            forall|i: int| 0 <= i < list.len() ==> is_single(#[trigger] list[i]),
            is_numbering(numbered@),
            places(before).is_prefix_of(places(numbered@)),
            r@.len() == it.index(),
            forall|i: int|
                0 <= i < r@.len() ==> {
                    &&& #[trigger] r@[i] < numbered@.len()
                    &&& places(numbered@)[r@[i] as int] == place(list[i])
                },
    {
        let ghost earlier = places(numbered@);
        let n: usize = number(numbered, address);
        r.push(n);
        proof {
            let later = places(numbered@);
            assert forall|i: int| 0 <= i < earlier.len() implies #[trigger] earlier[i]
                == later[i] by {}
            assert forall|i: int| 0 <= i < r@.len() implies {
                &&& #[trigger] r@[i] < numbered@.len()
                &&& later[r@[i] as int] == place(list[i])
            } by {
                if i < r@.len() - 1 {
                    assert(earlier[r@[i] as int] == later[r@[i] as int]);
                }
            }
        }
    }
    r
}

/// What a list of hosts says, with the socket addresses of the highest priority.
pub open spec fn top_resolutions(
    hosts: Seq<(abstract_ns::Address, Vec<Arc<Url>>)>,
) -> Seq<Resolution<Place>> {
    hosts.map_values(
        |host: (abstract_ns::Address, Vec<Arc<Url>>)|
            Resolution { addresses: level(host.0, 0), urls: parts(host.1@) },
    )
}

/// The peers by their socket addresses.
pub open spec fn placed(peers: Seq<Peer<abstract_ns::Address>>) -> Seq<Peer<Place>> {
    peers.map_values(
        |peer: Peer<abstract_ns::Address>| Peer { addr: place(peer.addr), urls: peer.urls },
    )
}

/// A host with its addresses in place of their numbers.
spec fn denumbered(host: Resolution<usize>, places: Seq<Place>) -> Resolution<Place> {
    Resolution {
        addresses: host.addresses.map_values(|n: usize| places[n as int]),
        urls: host.urls,
    }
}

/// Hosts with their addresses in place of the numbers.
spec fn denumbered_hosts(hosts: Seq<Resolution<usize>>, places: Seq<Place>) -> Seq<
    Resolution<Place>,
> {
    hosts.map_values(|host: Resolution<usize>| denumbered(host, places))
}

/// Peers with their addresses in place of the numbers.
spec fn denumbered_peers(peers: Seq<Peer<usize>>, places: Seq<Place>) -> Seq<Peer<Place>> {
    peers.map_values(|peer: Peer<usize>| Peer { addr: places[peer.addr as int], urls: peer.urls })
}

/// Whether every number of a host is one of an address.
spec fn is_numbered(host: Resolution<usize>, places: Seq<Place>) -> bool {
    forall|i: int| 0 <= i < host.addresses.len() ==> #[trigger] host.addresses[i] < places.len()
}

/// Whether every number of some hosts is one of an address.
spec fn are_numbered(hosts: Seq<Resolution<usize>>, places: Seq<Place>) -> bool {
    forall|i: int| 0 <= i < hosts.len() ==> is_numbered(#[trigger] hosts[i], places)
}

/// A host has an address if it has its number.
proof fn lemma_has_number(host: Resolution<usize>, places: Seq<Place>, n: usize)
    requires
        is_numbered(host, places),
        places.no_duplicates(),
        n < places.len(),
    ensures
        denumbered(host, places).addresses.contains(places[n as int]) <==> host.addresses.contains(
            n,
        ),
{
    let all = denumbered(host, places).addresses;
    if host.addresses.contains(n) {
        let i = choose|i: int| 0 <= i < host.addresses.len() && host.addresses[i] == n;
        assert(all[i] == places[n as int]);
    }
    if all.contains(places[n as int]) {
        let i = choose|i: int| 0 <= i < all.len() && all[i] == places[n as int];
        assert(places[host.addresses[i] as int] == places[n as int]);
        assert(host.addresses[i] == n);
    }
}

/// Numbers offer what their addresses do.
proof fn lemma_denumbered_hosts(hosts: Seq<Resolution<usize>>, places: Seq<Place>)
    requires
        are_numbered(hosts, places),
        places.no_duplicates(),
    ensures
        forall|n: usize|
            n < places.len() ==> (#[trigger] known(hosts, n) <==> known(
                denumbered_hosts(hosts, places),
                places[n as int],
            )),
        forall|n: usize| #[trigger] known(hosts, n) ==> n < places.len(),
        forall|n: usize, href: Seq<char>|
            n < places.len() ==> (#[trigger] offers(hosts, n, href) <==> offers(
                denumbered_hosts(hosts, places),
                places[n as int],
                href,
            )),
        forall|n: usize, url: UrlParts|
            n < places.len() && #[trigger] supplied(hosts, n, url) ==> supplied(
                denumbered_hosts(hosts, places),
                places[n as int],
                url,
            ),
        forall|addr: Place| #[trigger]
            known(denumbered_hosts(hosts, places), addr) ==> exists|n: usize|
                n < places.len() && #[trigger] known(hosts, n) && places[n as int] == addr,
{
    let all = denumbered_hosts(hosts, places);
    assert forall|i: int, n: usize|
        0 <= i < hosts.len() && n < places.len() implies (#[trigger] hosts[i].addresses.contains(n)
        <==> all[i].addresses.contains(places[n as int])) by {
        assert(is_numbered(hosts[i], places));
        lemma_has_number(hosts[i], places, n);
    }
    assert forall|n: usize| n < places.len() implies (#[trigger] known(hosts, n) <==> known(
        all,
        places[n as int],
    )) by {
        if known(hosts, n) {
            let i = choose|i: int| 0 <= i < hosts.len() && (#[trigger] hosts[i]).addresses.contains(n);
            assert(all[i].addresses.contains(places[n as int]));
        }
        if known(all, places[n as int]) {
            let i = choose|i: int|
                0 <= i < all.len() && (#[trigger] all[i]).addresses.contains(places[n as int]);
            assert(hosts[i].addresses.contains(n));
        }
    }
    assert forall|n: usize| #[trigger] known(hosts, n) implies n < places.len() by {
        let i = choose|i: int| 0 <= i < hosts.len() && (#[trigger] hosts[i]).addresses.contains(n);
        assert(is_numbered(hosts[i], places));
    }
    assert forall|n: usize, href: Seq<char>| n < places.len() implies (#[trigger] offers(
        hosts,
        n,
        href,
    ) <==> offers(all, places[n as int], href)) by {
        if offers(hosts, n, href) {
            let i = choose|i: int|
                0 <= i < hosts.len() && (#[trigger] hosts[i]).addresses.contains(n) && lists(
                    hosts[i].urls,
                    href,
                );
            assert(all[i].addresses.contains(places[n as int]));
        }
        if offers(all, places[n as int], href) {
            let i = choose|i: int|
                0 <= i < all.len() && (#[trigger] all[i]).addresses.contains(places[n as int])
                    && lists(all[i].urls, href);
            assert(hosts[i].addresses.contains(n));
        }
    }
    assert forall|n: usize, url: UrlParts|
        n < places.len() && #[trigger] supplied(hosts, n, url) implies supplied(
        all,
        places[n as int],
        url,
    ) by {
        let i = choose|i: int|
            0 <= i < hosts.len() && (#[trigger] hosts[i]).addresses.contains(n)
                && hosts[i].urls.contains(url);
        assert(all[i].addresses.contains(places[n as int]));
    }
    assert forall|addr: Place| #[trigger] known(all, addr) implies exists|n: usize|
        n < places.len() && #[trigger] known(hosts, n) && places[n as int] == addr by {
        let i = choose|i: int| 0 <= i < all.len() && (#[trigger] all[i]).addresses.contains(addr);
        let j = choose|j: int| 0 <= j < all[i].addresses.len() && all[i].addresses[j] == addr;
        let n = hosts[i].addresses[j];
        assert(is_numbered(hosts[i], places));
        assert(hosts[i].addresses.contains(n));
        assert(known(hosts, n));
    }
}

/// An assignment by numbers is one by the addresses that have the numbers.
proof fn lemma_denumbered(
    hosts: Seq<Resolution<usize>>,
    peers: Seq<Peer<usize>>,
    places: Seq<Place>,
)
    requires
        are_numbered(hosts, places),
        places.no_duplicates(),
        is_assignment(hosts, peers),
    ensures
        is_assignment(denumbered_hosts(hosts, places), denumbered_peers(peers, places)),
        forall|p: int| 0 <= p < peers.len() ==> (#[trigger] peers[p]).addr < places.len(),
{
    let order = lemma_order_of(hosts, peers);
    let len = order.len() as int;
    let all = denumbered_hosts(hosts, places);
    let them = denumbered_peers(peers, places);
    let addrs = order.map_values(|n: usize| places[n as int]);
    lemma_denumbered_hosts(hosts, places);
    assert forall|k: int| 0 <= k < order.len() implies #[trigger] order[k] < places.len() by {
        assert(order.contains(order[k]));
        assert(known(hosts, order[k]));
    }
    assert forall|k: int| 0 <= k < order.len() implies #[trigger] addrs[k]
        == places[order[k] as int] by {}
    assert forall|k: int| 0 <= k < order.len() implies offered_at(all, #[trigger] addrs[k])
        == offered_at(hosts, order[k]) by {
        assert(offered_at(all, addrs[k]) =~= offered_at(hosts, order[k])) by {
            assert forall|href: Seq<char>| #[trigger]
                offered_at(all, addrs[k]).contains(href) <==> offered_at(
                    hosts,
                    order[k],
                ).contains(href) by {
                assert(offers(hosts, order[k], href) <==> offers(all, addrs[k], href));
            }
        }
    }
    assert(is_load_order(all, addrs)) by {
        assert forall|addr: Place| #[trigger] addrs.contains(addr) <==> known(all, addr) by {
            if addrs.contains(addr) {
                let k = choose|k: int| 0 <= k < addrs.len() && addrs[k] == addr;
                assert(order.contains(order[k]));
                assert(known(hosts, order[k]));
            }
            if known(all, addr) {
                let n = choose|n: usize|
                    n < places.len() && #[trigger] known(hosts, n) && places[n as int] == addr;
                assert(order.contains(n));
                let k = choose|k: int| 0 <= k < order.len() && order[k] == n;
                assert(addrs[k] == addr);
            }
        }
        assert forall|i: int, j: int| 0 <= i < addrs.len() && 0 <= j < addrs.len() && i
            != j implies addrs[i] != addrs[j] by {
            assert(order[i] != order[j]);
        }
        assert forall|i: int, j: int| 0 <= i < j < addrs.len() implies offered_at(
            all,
            #[trigger] addrs[i],
        ).len() <= offered_at(all, #[trigger] addrs[j]).len() by {
            assert(offered_at(hosts, order[i]).len() <= offered_at(hosts, order[j]).len());
        }
    }
    assert forall|k: int, href: Seq<char>| 0 <= k < len implies (#[trigger] falls_to(
        all,
        addrs,
        k,
        href,
    ) <==> falls_to(hosts, order, k, href)) by {
        assert(offers(hosts, order[k], href) <==> offers(all, addrs[k], href));
        assert forall|j: int| 0 <= j < k implies (offers(hosts, #[trigger] order[j], href)
            <==> offers(all, addrs[j], href)) by {}
        if falls_to(all, addrs, k, href) {
            assert forall|j: int| 0 <= j < k implies !offers(hosts, #[trigger] order[j], href) by {
                assert(!offers(all, addrs[j], href));
            }
        }
        if falls_to(hosts, order, k, href) {
            assert forall|j: int| 0 <= j < k implies !offers(all, #[trigger] addrs[j], href) by {
                assert(!offers(hosts, order[j], href));
            }
        }
    }
    assert forall|p: int| 0 <= p < peers.len() implies {
        &&& (#[trigger] peers[p]).addr < places.len()
        &&& has_some_share(all, addrs, len, them[p])
    } by {
        assert(has_some_share(hosts, order, len, peers[p]));
        let k = choose|k: int| 0 <= k < len && #[trigger] has_share(hosts, order, k, peers[p]);
        assert(order[k] < places.len());
        assert forall|href: Seq<char>| #[trigger]
            hrefs(them[p].urls@).contains(href) <==> falls_to(all, addrs, k, href) by {
            assert(hrefs(peers[p].urls@).contains(href) <==> falls_to(hosts, order, k, href));
        }
        assert forall|url: UrlParts| #[trigger]
            parts(them[p].urls@).contains(url) implies supplied(all, them[p].addr, url) by {
            assert(parts(peers[p].urls@).contains(url));
            assert(supplied(hosts, peers[p].addr, url));
        }
        assert(has_share(all, addrs, k, them[p]));
    }
    assert(is_split(all, addrs, len, them)) by {
        assert forall|p: int, q: int| 0 <= p < q < them.len() implies (#[trigger] them[p]).addr != (
        #[trigger] them[q]).addr by {
            assert(peers[p].addr != peers[q].addr);
        }
        assert forall|p: int| 0 <= p < them.len() implies has_some_share(
            all,
            addrs,
            len,
            #[trigger] them[p],
        ) by {
            assert(peers[p].addr < places.len());
        }
        assert forall|k: int, href: Seq<char>|
            0 <= k < len && #[trigger] falls_to(all, addrs, k, href) implies exists|p: int|
            0 <= p < them.len() && (#[trigger] them[p]).addr == addrs[k] by {
            assert(falls_to(hosts, order, k, href));
            let p = choose|p: int| 0 <= p < peers.len() && (#[trigger] peers[p]).addr == order[k];
            assert(them[p].addr == addrs[k]);
        }
    }
}

/// More numbers leave hosts that are numbered as they are.
proof fn lemma_more_numbers(
    hosts: Seq<Resolution<usize>>,
    places: Seq<Place>,
    more: Seq<Place>,
)
    requires
        are_numbered(hosts, places),
        places.is_prefix_of(more),
    ensures
        are_numbered(hosts, more),
        denumbered_hosts(hosts, more) == denumbered_hosts(hosts, places),
{
    assert forall|i: int| 0 <= i < hosts.len() implies {
        &&& is_numbered(#[trigger] hosts[i], more)
        &&& denumbered(hosts[i], more) == denumbered(hosts[i], places)
    } by {
        assert(is_numbered(hosts[i], places));
        assert forall|j: int| 0 <= j < hosts[i].addresses.len() implies more[
            #[trigger] hosts[i].addresses[j] as int] == places[hosts[i].addresses[j] as int] by {}
        assert(denumbered(hosts[i], more).addresses =~= denumbered(hosts[i], places).addresses);
    }
    assert(denumbered_hosts(hosts, more) =~= denumbered_hosts(hosts, places));
}

/// What an assignment says of the hosts that were given.
proof fn lemma_given(
    list: Seq<(abstract_ns::Address, Vec<Arc<Url>>)>,
    them: Seq<Peer<abstract_ns::Address>>,
)
    requires
        is_assignment(top_resolutions(list), placed(them)),
    ensures
        forall|i: int, j: int|
            #![trigger list[i].1@[j]]
            0 <= i < list.len() && 0 <= j < list[i].1@.len() && address_levels(list[i].0).len() > 0
                && address_levels(list[i].0)[0].len() > 0 ==> exists|p: int, x: int|
                0 <= p < them.len() && 0 <= x < them[p].urls@.len() && (
                #[trigger] them[p].urls@[x])@.href == list[i].1@[j]@.href,
        forall|p: int, x: int, q: int, y: int|
            0 <= p < them.len() && 0 <= x < them[p].urls@.len() && 0 <= q < them.len() && 0 <= y
                < them[q].urls@.len() && (#[trigger] them[p].urls@[x])@.href == (
            #[trigger] them[q].urls@[y])@.href ==> p == q && x == y,
        forall|p: int, x: int|
            #![trigger them[p].urls@[x]]
            0 <= p < them.len() && 0 <= x < them[p].urls@.len() ==> is_given_at(
                list,
                address_levels(them[p].addr)[0][0],
                them[p].urls@[x]@,
            ),
{
    assert forall|i: int, j: int|
        #![trigger list[i].1@[j]]
        0 <= i < list.len() && 0 <= j < list[i].1@.len() && address_levels(list[i].0).len() > 0
            && address_levels(list[i].0)[0].len() > 0 implies exists|p: int, x: int|
        0 <= p < them.len() && 0 <= x < them[p].urls@.len() && (#[trigger] them[p].urls@[x])@.href
            == list[i].1@[j]@.href by {
        law_given_url_fetched_once(list, them, i, j);
    }
    assert forall|p: int, x: int|
        #![trigger them[p].urls@[x]]
        0 <= p < them.len() && 0 <= x < them[p].urls@.len() implies is_given_at(
        list,
        address_levels(them[p].addr)[0][0],
        them[p].urls@[x]@,
    ) by {
        law_fetched_url_was_given(list, them, p, x);
    }
    assert forall|p: int, x: int, q: int, y: int|
        0 <= p < them.len() && 0 <= x < them[p].urls@.len() && 0 <= q < them.len() && 0 <= y
            < them[q].urls@.len() && (#[trigger] them[p].urls@[x])@.href == (
        #[trigger] them[q].urls@[y])@.href implies p == q && x == y by {
        law_fetched_url_was_given(list, them, p, x);
        let (i, j) = choose|i: int, j: int|
            0 <= i < list.len() && 0 <= j < list[i].1@.len() && (#[trigger] list[i].1@[j])@
                == them[p].urls@[x]@ && address_levels(list[i].0).len() > 0 && address_levels(
                list[i].0,
            )[0].contains(address_levels(them[p].addr)[0][0]);
        law_given_url_fetched_once(list, them, i, j);
    }
}

/// Puts every URL to one socket address of the highest priority of its host: to one that offers
/// as few URLs as possible.
///
/// Each peer's address holds that socket address alone.
pub fn group_addrs(vec: Vec<(abstract_ns::Address, Vec<Arc<Url>>)>) -> (peers: Vec<
    Peer<abstract_ns::Address>,
>)
    ensures
        is_assignment(top_resolutions(vec@), placed(peers@)),
        forall|p: int| 0 <= p < peers@.len() ==> is_single((#[trigger] peers@[p]).addr),
        forall|i: int, j: int|
            #![trigger vec@[i].1@[j]]
            0 <= i < vec@.len() && 0 <= j < vec@[i].1@.len() && address_levels(vec@[i].0).len() > 0
                && address_levels(vec@[i].0)[0].len() > 0 ==> exists|p: int, x: int|
                0 <= p < peers@.len() && 0 <= x < peers@[p].urls@.len() && (
                #[trigger] peers@[p].urls@[x])@.href == vec@[i].1@[j]@.href,
        forall|p: int, x: int, q: int, y: int|
            0 <= p < peers@.len() && 0 <= x < peers@[p].urls@.len() && 0 <= q < peers@.len() && 0
                <= y < peers@[q].urls@.len() && (#[trigger] peers@[p].urls@[x])@.href == (
            #[trigger] peers@[q].urls@[y])@.href ==> p == q && x == y,
        forall|p: int, x: int|
            #![trigger peers@[p].urls@[x]]
            0 <= p < peers@.len() && 0 <= x < peers@[p].urls@.len() ==> is_given_at(
                vec@,
                address_levels(peers@[p].addr)[0][0],
                peers@[p].urls@[x]@,
            ),
{
    let ghost list = vec@;
    let mut numbered: Vec<abstract_ns::Address> = Vec::new();
    let mut hosts: Vec<Resolved> = Vec::new();
    for host in it: vec
        invariant
            it.seq() == list,
            is_numbering(numbered@),
            are_numbered(resolutions(hosts@), places(numbered@)),
            denumbered_hosts(resolutions(hosts@), places(numbered@)) == top_resolutions(
                list.take(it.index()),
            ),
    {
        let ghost before = hosts@;
        let ghost earlier = places(numbered@);
        let ghost seen = list.take(it.index());
        let (address, urls) = host;
        let found: Vec<abstract_ns::Address> = addresses_at(&address, 0);
        let ghost all = found@;
        let addresses: Vec<usize> = number_all(&mut numbered, found);
        hosts.push(Resolved { addresses, urls });
        proof {
            let later = places(numbered@);
            let new = hosts@.last()@;
            lemma_more_numbers(resolutions(before), earlier, later);
            assert(list.take(it.index() + 1) =~= seen.push(host));
            assert(resolutions(hosts@) =~= resolutions(before).push(new));
            assert(denumbered(new, later).addresses =~= level(address, 0)) by {
                assert forall|i: int| 0 <= i < all.len() implies denumbered(new, later).addresses[i]
                    == level(address, 0)[i] by {
                    assert(new.addresses[i] < numbered@.len());
                    assert(place(all[i]) == level(address, 0)[i]);
                }
            }
            assert(is_numbered(new, later));
            assert(top_resolutions(seen.push(host)) =~= top_resolutions(seen).push(
                denumbered(new, later),
            ));
            assert(denumbered_hosts(resolutions(hosts@), later) =~= denumbered_hosts(
                resolutions(before),
                later,
            ).push(denumbered(new, later)));
        }
    }
    assert(list.take(list.len() as int) =~= list);
    let shares: Vec<Peer<usize>> = assign_urls(&hosts);
    let ghost all = shares@;
    proof {
        lemma_denumbered(resolutions(hosts@), all, places(numbered@));
    }
    let mut peers: Vec<Peer<abstract_ns::Address>> = Vec::new();
    for share in it: shares
        invariant
            it.seq() == all,
            is_numbering(numbered@),
            forall|p: int| 0 <= p < all.len() ==> (#[trigger] all[p]).addr < numbered@.len(),
            placed(peers@) == denumbered_peers(all.take(it.index()), places(numbered@)),
            forall|p: int| 0 <= p < peers@.len() ==> is_single((#[trigger] peers@[p]).addr),
    {
        let ghost before = peers@;
        let ghost seen = all.take(it.index());
        let mut one: Vec<abstract_ns::Address> = addresses_at(&numbered[share.addr], 0);
        let addr: abstract_ns::Address = one.remove(0);
        peers.push(Peer { addr, urls: share.urls });
        proof {
            assert(place(addr) == place(numbered@[share.addr as int]));
            assert(all.take(it.index() + 1) =~= seen.push(share));
            assert(placed(peers@) =~= placed(before).push(placed(peers@).last()));
            assert(denumbered_peers(seen.push(share), places(numbered@)) =~= denumbered_peers(
                seen,
                places(numbered@),
            ).push(placed(peers@).last()));
        }
    }
    assert(all.take(all.len() as int) =~= all);
    proof {
        lemma_given(list, peers@);
    }
    peers
}

/// The order of addresses by which an assignment was made.
proof fn lemma_order_of<K>(hosts: Seq<Resolution<K>>, peers: Seq<Peer<K>>) -> (order: Seq<K>)
    requires
        is_assignment(hosts, peers),
    ensures
        is_load_order(hosts, order),
        is_split(hosts, order, order.len() as int, peers),
{
    choose|order: Seq<K>| #[trigger]
        is_load_order(hosts, order) && is_split(hosts, order, order.len() as int, peers)
}

/// The first place in an order whose address offers a URL.
proof fn lemma_first_offer<K>(
    hosts: Seq<Resolution<K>>,
    order: Seq<K>,
    href: Seq<char>,
    k: int,
) -> (first: int)
    requires
        0 <= k < order.len(),
        offers(hosts, order[k], href),
    ensures
        0 <= first <= k,
        falls_to(hosts, order, first, href),
    decreases k,
{
    if exists|j: int| 0 <= j < k && offers(hosts, #[trigger] order[j], href) {
        let j = choose|j: int| 0 <= j < k && offers(hosts, #[trigger] order[j], href);
        lemma_first_offer(hosts, order, href, j)
    } else {
        k
    }
}

/// Every URL on a host that has an address is fetched, and from one address only.
pub proof fn law_each_url_fetched_once<K>(
    hosts: Seq<Resolution<K>>,
    peers: Seq<Peer<K>>,
    addr: K,
    href: Seq<char>,
)
    requires
        is_assignment(hosts, peers),
        offers(hosts, addr, href),
    ensures
        exists|p: int|
            0 <= p < peers.len() && #[trigger] hrefs(peers[p].urls@).contains(href),
        forall|p: int, q: int|
            0 <= p < peers.len() && 0 <= q < peers.len() && #[trigger] hrefs(
                peers[p].urls@,
            ).contains(href) && #[trigger] hrefs(peers[q].urls@).contains(href) ==> p == q,
{
    let order = lemma_order_of(hosts, peers);
    let n = order.len() as int;
    assert(known(hosts, addr));
    assert(order.contains(addr));
    let k = choose|k: int| 0 <= k < order.len() && order[k] == addr;
    let first = lemma_first_offer(hosts, order, href, k);
    let p = choose|p: int| 0 <= p < peers.len() && (#[trigger] peers[p]).addr == order[first];
    assert(has_some_share(hosts, order, n, peers[p]));
    let i = choose|i: int| 0 <= i < n && #[trigger] has_share(hosts, order, i, peers[p]);
    assert(order[i] == order[first]);
    assert(i == first);
    assert(hrefs(peers[p].urls@).contains(href));
    assert forall|p: int, q: int|
        0 <= p < peers.len() && 0 <= q < peers.len() && #[trigger] hrefs(peers[p].urls@).contains(
            href,
        ) && #[trigger] hrefs(peers[q].urls@).contains(href) implies p == q by {
        assert(has_some_share(hosts, order, n, peers[p]));
        assert(has_some_share(hosts, order, n, peers[q]));
        let i = choose|i: int| 0 <= i < n && #[trigger] has_share(hosts, order, i, peers[p]);
        let j = choose|j: int| 0 <= j < n && #[trigger] has_share(hosts, order, j, peers[q]);
        assert(falls_to(hosts, order, i, href));
        assert(falls_to(hosts, order, j, href));
        assert(i == j);
        assert(peers[p].addr == peers[q].addr);
    }
}

/// A URL is fetched only from an address that offers it, and no other address that offers it
/// offers fewer URLs.
pub proof fn law_fetched_from_least_loaded<K>(
    hosts: Seq<Resolution<K>>,
    peers: Seq<Peer<K>>,
    p: int,
    href: Seq<char>,
    other: K,
)
    requires
        is_assignment(hosts, peers),
        0 <= p < peers.len(),
        hrefs(peers[p].urls@).contains(href),
    ensures
        offers(hosts, peers[p].addr, href),
        offers(hosts, other, href) ==> offered_at(hosts, peers[p].addr).len() <= offered_at(
            hosts,
            other,
        ).len(),
{
    let order = lemma_order_of(hosts, peers);
    let n = order.len() as int;
    assert(has_some_share(hosts, order, n, peers[p]));
    let i = choose|i: int| 0 <= i < n && #[trigger] has_share(hosts, order, i, peers[p]);
    assert(falls_to(hosts, order, i, href));
    if offers(hosts, other, href) {
        assert(known(hosts, other));
        assert(order.contains(other));
        let j = choose|j: int| 0 <= j < order.len() && order[j] == other;
        assert(!(j < i));
        if i < j {
            assert(offered_at(hosts, order[i]).len() <= offered_at(hosts, order[j]).len());
        }
    }
}

/// No connection is made in vain or twice: every peer has a URL to fetch, and addresses do
/// not repeat.
pub proof fn law_peers_are_needed<K>(hosts: Seq<Resolution<K>>, peers: Seq<Peer<K>>, p: int)
    requires
        is_assignment(hosts, peers),
        0 <= p < peers.len(),
    ensures
        peers[p].urls@.len() > 0,
        known(hosts, peers[p].addr),
        forall|q: int|
            0 <= q < peers.len() && q != p ==> (#[trigger] peers[q]).addr != peers[p].addr,
{
    let order = lemma_order_of(hosts, peers);
    let n = order.len() as int;
    assert(has_some_share(hosts, order, n, peers[p]));
    let i = choose|i: int| 0 <= i < n && #[trigger] has_share(hosts, order, i, peers[p]);
    assert(order.contains(order[i]));
}

/// Every URL of a scheme that was given is fetched, and from one address only, if every host
/// has an address.
pub proof fn law_each_given_url_fetched_once<K>(
    groups: Seq<HostUrls>,
    urls: Seq<UrlParts>,
    scheme: Seq<char>,
    hosts: Seq<Resolution<K>>,
    peers: Seq<Peer<K>>,
    k: int,
)
    requires
        is_table(groups, urls, scheme),
        hosts.len() == groups.len(),
        forall|i: int|
            0 <= i < hosts.len() ==> (#[trigger] hosts[i]).urls == parts(groups[i].urls@),
        forall|i: int| 0 <= i < hosts.len() ==> (#[trigger] hosts[i]).addresses.len() > 0,
        is_assignment(hosts, peers),
        0 <= k < urls.len(),
        urls[k].scheme == scheme,
    ensures
        exists|p: int|
            0 <= p < peers.len() && #[trigger] hrefs(peers[p].urls@).contains(urls[k].href),
        forall|p: int, q: int|
            0 <= p < peers.len() && 0 <= q < peers.len() && #[trigger] hrefs(
                peers[p].urls@,
            ).contains(urls[k].href) && #[trigger] hrefs(peers[q].urls@).contains(urls[k].href)
                ==> p == q,
{
    law_each_url_in_one_group(groups, urls, scheme, k);
    let i = choose|i: int|
        0 <= i < groups.len() && (#[trigger] groups[i]).host@ == host_key(urls[k]) && parts(
            groups[i].urls@,
        ).contains(urls[k]);
    let list = hosts[i].urls;
    let x = choose|x: int| 0 <= x < list.len() && list[x] == urls[k];
    assert(list[x].href == urls[k].href);
    let addr = hosts[i].addresses[0];
    assert(hosts[i].addresses.contains(addr));
    assert(lists(list, urls[k].href));
    assert(offers(hosts, addr, urls[k].href));
    law_each_url_fetched_once(hosts, peers, addr, urls[k].href);
}

/// No peer has a URL twice.
proof fn lemma_no_url_twice<K>(hosts: Seq<Resolution<K>>, peers: Seq<Peer<K>>, p: int)
    requires
        is_assignment(hosts, peers),
        0 <= p < peers.len(),
    ensures
        hrefs(peers[p].urls@).no_duplicates(),
{
    let order = lemma_order_of(hosts, peers);
    let n = order.len() as int;
    assert(has_some_share(hosts, order, n, peers[p]));
}

/// Every URL of a host with a socket address of the highest priority is fetched by one peer, and
/// stands there once.
pub proof fn law_given_url_fetched_once(
    given: Seq<(abstract_ns::Address, Vec<Arc<Url>>)>,
    peers: Seq<Peer<abstract_ns::Address>>,
    i: int,
    j: int,
)
    requires
        is_assignment(top_resolutions(given), placed(peers)),
        0 <= i < given.len(),
        0 <= j < given[i].1@.len(),
        address_levels(given[i].0).len() > 0,
        address_levels(given[i].0)[0].len() > 0,
    ensures
        exists|p: int, x: int|
            0 <= p < peers.len() && 0 <= x < peers[p].urls@.len() && (
            #[trigger] peers[p].urls@[x])@.href == given[i].1@[j]@.href,
        forall|p: int, x: int, q: int, y: int|
            0 <= p < peers.len() && 0 <= x < peers[p].urls@.len() && 0 <= q < peers.len() && 0 <= y
                < peers[q].urls@.len() && (#[trigger] peers[p].urls@[x])@.href
                == given[i].1@[j]@.href && (#[trigger] peers[q].urls@[y])@.href
                == given[i].1@[j]@.href ==> p == q && x == y,
{
    let hosts = top_resolutions(given);
    let them = placed(peers);
    let href = given[i].1@[j]@.href;
    let addr = address_levels(given[i].0)[0][0];
    assert(hosts[i].addresses == level(given[i].0, 0));
    assert(hosts[i].addresses[0] == addr);
    assert(hosts[i].addresses.contains(addr));
    assert(hosts[i].urls[j].href == href);
    assert(lists(hosts[i].urls, href));
    assert(offers(hosts, addr, href));
    law_each_url_fetched_once(hosts, them, addr, href);
    assert forall|p: int| 0 <= p < peers.len() implies (#[trigger] them[p]).urls == peers[p].urls by {}
    let p = choose|p: int| 0 <= p < them.len() && #[trigger] hrefs(them[p].urls@).contains(href);
    let all = hrefs(them[p].urls@);
    let x = choose|x: int| 0 <= x < all.len() && all[x] == href;
    assert(peers[p].urls@[x]@.href == href);
    assert forall|p: int, x: int, q: int, y: int|
        0 <= p < peers.len() && 0 <= x < peers[p].urls@.len() && 0 <= q < peers.len() && 0 <= y
            < peers[q].urls@.len() && (#[trigger] peers[p].urls@[x])@.href == href && (
        #[trigger] peers[q].urls@[y])@.href == href implies p == q && x == y by {
        assert(hrefs(them[p].urls@)[x] == href);
        assert(hrefs(them[q].urls@)[y] == href);
        assert(hrefs(them[p].urls@).contains(href));
        assert(hrefs(them[q].urls@).contains(href));
        lemma_no_url_twice(hosts, them, p);
    }
}

/// Whether a URL was given for a host that has a socket address among those of the highest
/// priority.
pub open spec fn is_given_at(
    given: Seq<(abstract_ns::Address, Vec<Arc<Url>>)>,
    addr: Place,
    url: UrlParts,
) -> bool {
    exists|i: int, j: int|
        0 <= i < given.len() && 0 <= j < given[i].1@.len() && (#[trigger] given[i].1@[j])@ == url
            && address_levels(given[i].0).len() > 0 && address_levels(given[i].0)[0].contains(addr)
}

/// A peer fetches nothing but URLs that were given, as they were given, and each from a socket
/// address of the highest priority of its host.
pub proof fn law_fetched_url_was_given(
    given: Seq<(abstract_ns::Address, Vec<Arc<Url>>)>,
    peers: Seq<Peer<abstract_ns::Address>>,
    p: int,
    x: int,
)
    requires
        is_assignment(top_resolutions(given), placed(peers)),
        0 <= p < peers.len(),
        0 <= x < peers[p].urls@.len(),
    ensures
        is_given_at(given, address_levels(peers[p].addr)[0][0], peers[p].urls@[x]@),
{
    let hosts = top_resolutions(given);
    let them = placed(peers);
    let order = lemma_order_of(hosts, them);
    let n = order.len() as int;
    let url = peers[p].urls@[x]@;
    assert(has_some_share(hosts, order, n, them[p]));
    let k = choose|k: int| 0 <= k < n && #[trigger] has_share(hosts, order, k, them[p]);
    assert(parts(them[p].urls@)[x] == url);
    assert(parts(them[p].urls@).contains(url));
    assert(supplied(hosts, them[p].addr, url));
    let i = choose|i: int|
        0 <= i < hosts.len() && (#[trigger] hosts[i]).addresses.contains(them[p].addr)
            && hosts[i].urls.contains(url);
    let j = choose|j: int| 0 <= j < hosts[i].urls.len() && hosts[i].urls[j] == url;
    assert(given[i].1@[j]@ == url);
}

/// Every peer has a URL, and no two peers have the same socket address.
pub proof fn law_no_needless_peer(
    given: Seq<(abstract_ns::Address, Vec<Arc<Url>>)>,
    peers: Seq<Peer<abstract_ns::Address>>,
    p: int,
    q: int,
)
    requires
        is_assignment(top_resolutions(given), placed(peers)),
        0 <= p < peers.len(),
        0 <= q < peers.len(),
        p != q,
    ensures
        peers[p].urls@.len() > 0,
        address_levels(peers[p].addr)[0][0] != address_levels(peers[q].addr)[0][0],
{
    let them = placed(peers);
    law_peers_are_needed(top_resolutions(given), them, p);
    assert(them[p].urls == peers[p].urls);
    assert(them[q].addr == place(peers[q].addr));
}

/// The URLs of all the hosts that have a socket address among those of the highest priority.
pub open spec fn given_at(
    given: Seq<(abstract_ns::Address, Vec<Arc<Url>>)>,
    addr: Place,
) -> Set<Seq<char>> {
    Set::new(
        |href: Seq<char>|
            exists|i: int, j: int|
                0 <= i < given.len() && 0 <= j < given[i].1@.len() && (
                #[trigger] given[i].1@[j])@.href == href && address_levels(given[i].0).len() > 0
                    && address_levels(given[i].0)[0].contains(addr),
    )
}

/// Of the socket addresses from which a URL can be fetched, it is fetched from one for which the
/// number of different URLs is the least.
pub proof fn law_given_url_fetched_where_least(
    given: Seq<(abstract_ns::Address, Vec<Arc<Url>>)>,
    peers: Seq<Peer<abstract_ns::Address>>,
    p: int,
    x: int,
    other: Place,
)
    requires
        is_assignment(top_resolutions(given), placed(peers)),
        0 <= p < peers.len(),
        0 <= x < peers[p].urls@.len(),
        given_at(given, other).contains(peers[p].urls@[x]@.href),
    ensures
        given_at(given, address_levels(peers[p].addr)[0][0]).contains(peers[p].urls@[x]@.href),
        given_at(given, address_levels(peers[p].addr)[0][0]).len() <= given_at(given, other).len(),
{
    let hosts = top_resolutions(given);
    let them = placed(peers);
    let href = peers[p].urls@[x]@.href;
    assert forall|addr: Place| #[trigger] given_at(given, addr) == offered_at(hosts, addr) by {
        assert forall|h: Seq<char>| #[trigger]
            given_at(given, addr).contains(h) <==> offered_at(hosts, addr).contains(h) by {
            if given_at(given, addr).contains(h) {
                let (i, j) = choose|i: int, j: int|
                    0 <= i < given.len() && 0 <= j < given[i].1@.len() && (
                    #[trigger] given[i].1@[j])@.href == h && address_levels(given[i].0).len() > 0
                        && address_levels(given[i].0)[0].contains(addr);
                assert(hosts[i].addresses.contains(addr));
                assert(hosts[i].urls[j].href == h);
                assert(lists(hosts[i].urls, h));
                assert(offers(hosts, addr, h));
            }
            if offers(hosts, addr, h) {
                let i = choose|i: int|
                    0 <= i < hosts.len() && (#[trigger] hosts[i]).addresses.contains(addr) && lists(
                        hosts[i].urls,
                        h,
                    );
                let j = choose|j: int|
                    0 <= j < hosts[i].urls.len() && (#[trigger] hosts[i].urls[j]).href == h;
                assert(given[i].1@[j]@.href == h);
            }
        }
        assert(given_at(given, addr) =~= offered_at(hosts, addr));
    }
    assert(hrefs(them[p].urls@)[x] == href);
    assert(hrefs(them[p].urls@).contains(href));
    assert(offered_at(hosts, other).contains(href));
    law_fetched_from_least_loaded(hosts, them, p, href, other);
    assert(them[p].addr == address_levels(peers[p].addr)[0][0]);
    assert(offered_at(hosts, them[p].addr).contains(href));
}

/// A call of `group_addrs` has every URL of a host with a socket address of the highest priority
/// fetched by one peer, which has it once, from such an address of a host that it was given for.
pub proof fn law_group_addrs(
    vec: Vec<(abstract_ns::Address, Vec<Arc<Url>>)>,
    peers: Vec<Peer<abstract_ns::Address>>,
    i: int,
    j: int,
)
    requires
        call_ensures(group_addrs, (vec,), peers),
        0 <= i < vec@.len(),
        0 <= j < vec@[i].1@.len(),
        address_levels(vec@[i].0).len() > 0,
        address_levels(vec@[i].0)[0].len() > 0,
    ensures
        exists|p: int, x: int|
            0 <= p < peers@.len() && 0 <= x < peers@[p].urls@.len() && (
            #[trigger] peers@[p].urls@[x])@.href == vec@[i].1@[j]@.href && is_given_at(
                vec@,
                address_levels(peers@[p].addr)[0][0],
                peers@[p].urls@[x]@,
            ),
        forall|p: int, x: int, q: int, y: int|
            0 <= p < peers@.len() && 0 <= x < peers@[p].urls@.len() && 0 <= q < peers@.len() && 0
                <= y < peers@[q].urls@.len() && (#[trigger] peers@[p].urls@[x])@.href
                == vec@[i].1@[j]@.href && (#[trigger] peers@[q].urls@[y])@.href
                == vec@[i].1@[j]@.href ==> p == q && x == y,
{
    law_given_url_fetched_once(vec@, peers@, i, j);
    let (p, x) = choose|p: int, x: int|
        0 <= p < peers@.len() && 0 <= x < peers@[p].urls@.len() && (
        #[trigger] peers@[p].urls@[x])@.href == vec@[i].1@[j]@.href;
    law_fetched_url_was_given(vec@, peers@, p, x);
}

/// A call of `group_addrs` gives peers that are all needed: each has one socket address, which no
/// other has, and a URL. A URL is fetched where there are the fewest different ones.
pub proof fn law_group_addrs_peers(
    vec: Vec<(abstract_ns::Address, Vec<Arc<Url>>)>,
    peers: Vec<Peer<abstract_ns::Address>>,
    p: int,
    q: int,
    x: int,
    other: Place,
)
    requires
        call_ensures(group_addrs, (vec,), peers),
        0 <= p < peers@.len(),
        0 <= q < peers@.len(),
    ensures
        address_levels(peers@[p].addr).len() == 1,
        address_levels(peers@[p].addr)[0].len() == 1,
        peers@[p].urls@.len() > 0,
        p != q ==> address_levels(peers@[p].addr)[0][0] != address_levels(peers@[q].addr)[0][0],
        0 <= x < peers@[p].urls@.len() && given_at(vec@, other).contains(
            peers@[p].urls@[x]@.href,
        ) ==> given_at(vec@, address_levels(peers@[p].addr)[0][0]).len() <= given_at(
            vec@,
            other,
        ).len(),
{
    law_peers_are_needed(top_resolutions(vec@), placed(peers@), p);
    assert(placed(peers@)[p].urls == peers@[p].urls);
    if p != q {
        law_no_needless_peer(vec@, peers@, p, q);
    }
    if 0 <= x < peers@[p].urls@.len() && given_at(vec@, other).contains(peers@[p].urls@[x]@.href) {
        law_given_url_fetched_where_least(vec@, peers@, p, x, other);
    }
}

/// A call of `assign_urls` has every URL of a host with an address fetched by one peer, which has
/// it once.
pub proof fn law_assign_urls(
    hosts: Vec<Resolved>,
    peers: Vec<Peer<usize>>,
    i: int,
    j: int,
)
    requires
        call_ensures(assign_urls, (&hosts,), peers),
        0 <= i < hosts@.len(),
        hosts@[i].addresses@.len() > 0,
        0 <= j < hosts@[i].urls@.len(),
    ensures
        exists|p: int, x: int|
            0 <= p < peers@.len() && 0 <= x < peers@[p].urls@.len() && (
            #[trigger] peers@[p].urls@[x])@.href == hosts@[i].urls@[j]@.href,
        forall|p: int, x: int, q: int, y: int|
            0 <= p < peers@.len() && 0 <= x < peers@[p].urls@.len() && 0 <= q < peers@.len() && 0
                <= y < peers@[q].urls@.len() && (#[trigger] peers@[p].urls@[x])@.href
                == hosts@[i].urls@[j]@.href && (#[trigger] peers@[q].urls@[y])@.href
                == hosts@[i].urls@[j]@.href ==> p == q && x == y,
{
    let all = resolutions(hosts@);
    let href = hosts@[i].urls@[j]@.href;
    let addr = hosts@[i].addresses@[0];
    assert(all[i] == hosts@[i]@);
    assert(all[i].addresses.contains(addr));
    assert(all[i].urls[j].href == href);
    assert(lists(all[i].urls, href));
    assert(offers(all, addr, href));
    law_each_url_fetched_once(all, peers@, addr, href);
    let p = choose|p: int| 0 <= p < peers@.len() && #[trigger] hrefs(peers@[p].urls@).contains(href);
    let them = hrefs(peers@[p].urls@);
    let x = choose|x: int| 0 <= x < them.len() && them[x] == href;
    assert(peers@[p].urls@[x]@.href == href);
    assert forall|p: int, x: int, q: int, y: int|
        0 <= p < peers@.len() && 0 <= x < peers@[p].urls@.len() && 0 <= q < peers@.len() && 0 <= y
            < peers@[q].urls@.len() && (#[trigger] peers@[p].urls@[x])@.href == href && (
        #[trigger] peers@[q].urls@[y])@.href == href implies p == q && x == y by {
        assert(hrefs(peers@[p].urls@)[x] == href);
        assert(hrefs(peers@[q].urls@)[y] == href);
        assert(hrefs(peers@[p].urls@).contains(href));
        assert(hrefs(peers@[q].urls@).contains(href));
        lemma_no_url_twice(all, peers@, p);
    }
}

} // verus!
