//! Which hosts to connect to, and for which URLs.

use std::sync::Arc;

use vstd::prelude::*;

use crate::decimal::append_decimal;
#[allow(unused_imports)]
use crate::decimal::{
    ascii_bytes, decimal, is_digit, law_decimal_injective, lemma_decimal_digits,
};
use crate::target::{Options, Url};
#[allow(unused_imports)]
use crate::target::UrlParts;
#[allow(unused_imports)]
use crate::tls::{before_colon, law_tls_host_drops_port};

verus! {

/// The URLs on one host.
#[derive(Debug)]
pub struct HostUrls {
    /// Name and port of the host, with a colon between them.
    pub host: String,
    /// The URLs, in the order in which they were given.
    pub urls: Vec<Arc<Url>>,
}

/// Why a URL cannot be assigned to a host.
#[derive(Debug, Clone, Copy, PartialEq, Eq, Structural)]
pub enum Fault {
    /// It names no host.
    NoHost,
    /// It names no port, and its scheme implies none.
    NoPort,
}

/// The URLs to follow, by scheme and host.
#[derive(Debug)]
pub struct Routes {
    pub http: Vec<HostUrls>,
    pub https: Vec<HostUrls>,
    /// URLs of any other scheme.
    pub unsupported: Vec<Arc<Url>>,
    /// How many URLs have been looked at with success: all of them if there is no fault.
    pub routed: usize,
    /// What is wrong with the next URL.
    pub fault: Option<Fault>,
}

/// Name and port of the host of a URL, with a colon between them.
pub open spec fn host_key(url: UrlParts) -> Seq<char> {
    url.host->0 + ":"@ + decimal(url.port->0 as nat)
}

/// What the URLs of a list say.
pub open spec fn parts(urls: Seq<Arc<Url>>) -> Seq<UrlParts> {
    urls.map_values(|url: Arc<Url>| url@)
}

/// The URLs of a scheme on a host, in order.
pub open spec fn urls_on(
    urls: Seq<UrlParts>,
    scheme: Seq<char>,
    host: Seq<char>,
) -> Seq<UrlParts>
    decreases urls.len(),
{
    if urls.len() == 0 {
        Seq::empty()
    } else {
        let rest = urls_on(urls.drop_last(), scheme, host);
        if urls.last().scheme == scheme && host_key(urls.last()) == host {
            rest.push(urls.last())
        } else {
            rest
        }
    }
}

/// The URLs of schemes that cannot be followed, in order.
pub open spec fn unsupported(urls: Seq<UrlParts>) -> Seq<UrlParts>
    decreases urls.len(),
{
    if urls.len() == 0 {
        Seq::empty()
    } else {
        let rest = unsupported(urls.drop_last());
        if urls.last().is_web() {
            rest
        } else {
            rest.push(urls.last())
        }
    }
}

/// Whether `groups` holds the URLs of a scheme by host: every host with such a URL once,
/// with all its URLs in order, and no other host.
pub open spec fn is_table(
    groups: Seq<HostUrls>,
    urls: Seq<UrlParts>,
    scheme: Seq<char>,
) -> bool {
    &&& forall|i: int, j: int|
        0 <= i < j < groups.len() ==> (#[trigger] groups[i]).host@ != (#[trigger] groups[j]).host@
    &&& forall|i: int|
        0 <= i < groups.len() ==> parts((#[trigger] groups[i]).urls@) == urls_on(
            urls,
            scheme,
            groups[i].host@,
        ) && groups[i].urls@.len() > 0
    &&& forall|k: int|
        0 <= k < urls.len() && (#[trigger] urls[k]).scheme == scheme ==> exists|i: int|
            0 <= i < groups.len() && (#[trigger] groups[i]).host@ == host_key(urls[k])
}

/// A URL of another scheme changes nothing.
proof fn lemma_other_scheme(
    groups: Seq<HostUrls>,
    urls: Seq<UrlParts>,
    scheme: Seq<char>,
    url: UrlParts,
)
    requires
        is_table(groups, urls, scheme),
        url.scheme != scheme,
    ensures
        is_table(groups, urls.push(url), scheme),
{
    let longer = urls.push(url);
    assert(longer.drop_last() =~= urls);
    assert forall|k: int|
        0 <= k < longer.len() && (#[trigger] longer[k]).scheme == scheme implies exists|i: int|
        0 <= i < groups.len() && (#[trigger] groups[i]).host@ == host_key(longer[k]) by {
        assert(longer[k] == urls[k]);
    }
}

/// A host has URLs only if one of the list is on it.
proof fn lemma_urls_on_empty(urls: Seq<UrlParts>, scheme: Seq<char>, host: Seq<char>)
    requires
        forall|k: int|
            0 <= k < urls.len() ==> !((#[trigger] urls[k]).scheme == scheme && host_key(urls[k])
                == host),
    ensures
        urls_on(urls, scheme, host) == Seq::<UrlParts>::empty(),
    decreases urls.len(),
{
    if urls.len() > 0 {
        assert(urls[urls.len() - 1] == urls.last());
        assert forall|k: int| 0 <= k < urls.drop_last().len() implies !((
        #[trigger] urls.drop_last()[k]).scheme == scheme && host_key(urls.drop_last()[k])
            == host) by {
            assert(urls.drop_last()[k] == urls[k]);
        }
        lemma_urls_on_empty(urls.drop_last(), scheme, host);
    }
}

/// Puts a URL to its host.
fn enter(
    groups: &mut Vec<HostUrls>,
    host: String,
    url: Arc<Url>,
    Ghost(urls): Ghost<Seq<UrlParts>>,
)
    requires
        is_table(old(groups)@, urls, url@.scheme),
        host@ == host_key(url@),
    ensures
        is_table(final(groups)@, urls.push(url@), url@.scheme),
{
    let ghost before = groups@;
    let ghost scheme = url@.scheme;
    let ghost longer = urls.push(url@);
    let ghost key = host@;
    assert(longer.drop_last() =~= urls);
    let mut i: usize = 0;
    while i < groups.len()
        invariant
            i <= groups@.len(),
            groups@ == before,
            host@ == key,
            forall|j: int| 0 <= j < i ==> (#[trigger] before[j]).host@ != key,
        ensures
            i <= groups@.len(),
            i < groups@.len() ==> groups@[i as int].host@ == key,
            i == groups@.len() ==> forall|j: int|
                0 <= j < before.len() ==> (#[trigger] before[j]).host@ != key,
        decreases groups.len() - i,
    {
        if groups[i].host == host {
            break;
        }
        i = i + 1;
    }
    if i < groups.len() {
        groups[i].urls.push(url);
        proof {
            assert(groups@[i as int].host == before[i as int].host);
            assert(parts(groups@[i as int].urls@) =~= parts(before[i as int].urls@).push(url@));
        }
    } else {
        let mut fresh: Vec<Arc<Url>> = Vec::new();
        fresh.push(url);
        groups.push(HostUrls { host, urls: fresh });
        proof {
            assert forall|k: int| 0 <= k < urls.len() implies !((#[trigger] urls[k]).scheme
                == scheme && host_key(urls[k]) == key) by {
                if urls[k].scheme == scheme && host_key(urls[k]) == key {
                    let j = choose|j: int|
                        0 <= j < before.len() && (#[trigger] before[j]).host@ == host_key(urls[k]);
                    assert(before[j].host@ != key);
                }
            }
            lemma_urls_on_empty(urls, scheme, key);
            assert(parts(fresh@) =~= seq![url@]);
            assert(urls_on(longer, scheme, key) =~= seq![url@]);
        }
    }
    proof {
        let now = groups@;
        assert forall|a: int, b: int| 0 <= a < b < now.len() implies (#[trigger] now[a]).host@ != (
        #[trigger] now[b]).host@ by {
            assert(a < before.len() ==> now[a].host@ == before[a].host@);
            assert(b < before.len() ==> now[b].host@ == before[b].host@);
        }
        assert forall|a: int| 0 <= a < now.len() implies parts((#[trigger] now[a]).urls@)
            == urls_on(longer, scheme, now[a].host@) && now[a].urls@.len() > 0 by {
            if a < before.len() && a != i {
                assert(now[a] == before[a]);
                assert(before[a].host@ != key);
            }
        }
        assert forall|k: int|
            0 <= k < longer.len() && (#[trigger] longer[k]).scheme == scheme implies exists|a: int|
            0 <= a < now.len() && (#[trigger] now[a]).host@ == host_key(longer[k]) by {
            if k < urls.len() {
                assert(longer[k] == urls[k]);
                let a = choose|a: int|
                    0 <= a < before.len() && (#[trigger] before[a]).host@ == host_key(urls[k]);
                assert(now[a].host@ == before[a].host@);
            } else {
                assert(now[i as int].host@ == key);
            }
        }
    }
}

/// What the URLs of the program's options say.
pub open spec fn asked(options: Options) -> Seq<UrlParts> {
    options.urls@.map_values(|url: Url| url@)
}

/// Joins name and port of a host.
fn join_host(host: &String, port: u16) -> (r: String)
    ensures
        r@ == host@ + ":"@ + decimal(port as nat),
{
    let mut key: String = host.clone();
    key.append(":");
    append_decimal(&mut key, port as u64);
    key
}

/// Sorts the URLs by scheme and host, up to the first one without a host or port.
pub fn route(options: &Options) -> (r: Routes)
    ensures
        r.routed <= options.urls@.len(),
        forall|i: int| 0 <= i < r.routed ==> (#[trigger] asked(*options)[i]).is_routable(),
        r.fault is None <==> r.routed == options.urls@.len(),
        r.fault == Some(Fault::NoHost) <==> r.routed < options.urls@.len()
            && asked(*options)[r.routed as int].host is None,
        r.fault == Some(Fault::NoPort) <==> r.routed < options.urls@.len()
            && asked(*options)[r.routed as int].host is Some
            && asked(*options)[r.routed as int].port is None,
        is_table(r.http@, asked(*options).take(r.routed as int), "http"@),
        is_table(r.https@, asked(*options).take(r.routed as int), "https"@),
        parts(r.unsupported@) == unsupported(asked(*options).take(r.routed as int)),
{
    let ghost all = asked(*options);
    let http_scheme: String = "http".to_owned();
    let https_scheme: String = "https".to_owned();
    let mut http: Vec<HostUrls> = Vec::new();
    let mut https: Vec<HostUrls> = Vec::new();
    let mut others: Vec<Arc<Url>> = Vec::new();
    let mut i: usize = 0;
    assert(all.take(0) =~= Seq::empty());
    assert(parts(others@) =~= Seq::empty());
    while i < options.urls.len()
        invariant
            i <= options.urls@.len(),
            all == asked(*options),
            http_scheme@ == "http"@,
            https_scheme@ == "https"@,
            forall|j: int| 0 <= j < i ==> (#[trigger] all[j]).is_routable(),
            is_table(http@, all.take(i as int), "http"@),
            is_table(https@, all.take(i as int), "https"@),
            parts(others@) == unsupported(all.take(i as int)),
        decreases options.urls.len() - i,
    {
        let url: &Url = &options.urls[i];
        assert(all[i as int] == url@);
        let host: &String = match &url.host {
            Some(host) => host,
            None => {
                return Routes {
                    http,
                    https,
                    unsupported: others,
                    routed: i,
                    fault: Some(Fault::NoHost),
                };
            },
        };
        let port: u16 = match url.port {
            Some(port) => port,
            None => {
                return Routes {
                    http,
                    https,
                    unsupported: others,
                    routed: i,
                    fault: Some(Fault::NoPort),
                };
            },
        };
        let key: String = join_host(host, port);
        let shared: Arc<Url> = Arc::new(url.clone());
        let ghost seen = all.take(i as int);
        proof {
            assert(all.take(i + 1) =~= seen.push(url@));
            assert(seen.push(url@).drop_last() =~= seen);
            reveal_strlit("http");
            reveal_strlit("https");
            assert("http"@.len() != "https"@.len());
        }
        if url.scheme == http_scheme {
            enter(&mut http, key, shared, Ghost(seen));
            proof {
                lemma_other_scheme(https@, seen, "https"@, url@);
            }
        } else if url.scheme == https_scheme {
            enter(&mut https, key, shared, Ghost(seen));
            proof {
                lemma_other_scheme(http@, seen, "http"@, url@);
            }
        } else {
            let ghost before = others@;
            others.push(shared);
            proof {
                assert(parts(others@) =~= parts(before).push(url@));
                lemma_other_scheme(http@, seen, "http"@, url@);
                lemma_other_scheme(https@, seen, "https"@, url@);
            }
        }
        i = i + 1;
    }
    assert(all.take(i as int) =~= all);
    Routes { http, https, unsupported: others, routed: i, fault: None }
}

/// Every URL of a scheme stands in the group of its host, and in no other.
pub proof fn law_each_url_in_one_group(
    groups: Seq<HostUrls>,
    urls: Seq<UrlParts>,
    scheme: Seq<char>,
    k: int,
)
    requires
        is_table(groups, urls, scheme),
        0 <= k < urls.len(),
        urls[k].scheme == scheme,
    ensures
        exists|i: int|
            0 <= i < groups.len() && (#[trigger] groups[i]).host@ == host_key(urls[k]) && parts(
                groups[i].urls@,
            ).contains(urls[k]),
        forall|i: int|
            0 <= i < groups.len() && parts((#[trigger] groups[i]).urls@).contains(urls[k])
                ==> groups[i].host@ == host_key(urls[k]),
{
    let i = choose|i: int|
        0 <= i < groups.len() && (#[trigger] groups[i]).host@ == host_key(urls[k]);
    lemma_urls_on_holds(urls, scheme, groups[i].host@, k);
    assert(parts(groups[i].urls@).contains(urls[k]));
    assert forall|j: int|
        0 <= j < groups.len() && parts((#[trigger] groups[j]).urls@).contains(
            urls[k],
        ) implies groups[j].host@ == host_key(urls[k]) by {
        lemma_urls_on_only(urls, scheme, groups[j].host@, urls[k]);
    }
}

/// A URL of the list stands among those of its host.
proof fn lemma_urls_on_holds(urls: Seq<UrlParts>, scheme: Seq<char>, host: Seq<char>, k: int)
    requires
        0 <= k < urls.len(),
        urls[k].scheme == scheme,
        host_key(urls[k]) == host,
    ensures
        urls_on(urls, scheme, host).contains(urls[k]),
    decreases urls.len(),
{
    let rest = urls_on(urls.drop_last(), scheme, host);
    let all = urls_on(urls, scheme, host);
    if k == urls.len() - 1 {
        assert(all[all.len() - 1] == urls[k]);
    } else {
        lemma_urls_on_holds(urls.drop_last(), scheme, host, k);
        let i = choose|i: int| 0 <= i < rest.len() && rest[i] == urls[k];
        assert(all[i] == urls[k]);
    }
}

/// Only URLs of the scheme and the host stand among those of a host.
proof fn lemma_urls_on_only(
    urls: Seq<UrlParts>,
    scheme: Seq<char>,
    host: Seq<char>,
    url: UrlParts,
)
    requires
        urls_on(urls, scheme, host).contains(url),
    ensures
        url.scheme == scheme,
        host_key(url) == host,
    decreases urls.len(),
{
    let all = urls_on(urls, scheme, host);
    let i = choose|i: int| 0 <= i < all.len() && all[i] == url;
    if urls.len() > 0 {
        let rest = urls_on(urls.drop_last(), scheme, host);
        if i < rest.len() {
            assert(rest[i] == url);
            lemma_urls_on_only(urls.drop_last(), scheme, host, url);
        }
    }
}

/// The certificate of a host is checked for the host that the URL names, unless that name
/// holds a colon itself.
pub proof fn law_tls_host_of_key(url: UrlParts)
    requires
        url.is_routable(),
        !url.host->0.contains(':'),
    ensures
        before_colon(host_key(url)) == url.host->0,
{
    reveal_strlit(":");
    assert(":"@ =~= seq![':']);
    law_tls_host_drops_port(url.host->0, decimal(url.port->0 as nat));
}

/// URLs share a group only if they have the same host and port.
pub proof fn law_host_key_injective(a: UrlParts, b: UrlParts)
    requires
        a.is_routable(),
        b.is_routable(),
        host_key(a) == host_key(b),
    ensures
        a.host == b.host,
        a.port == b.port,
{
    lemma_name_not_longer(a, b);
    lemma_name_not_longer(b, a);
    let key = host_key(a);
    let len = a.host->0.len() as int;
    reveal_strlit(":");
    assert(":"@ =~= seq![':']);
    assert(key.take(len) =~= a.host->0);
    assert(host_key(b).take(len) =~= b.host->0);
    assert(key.skip(len + 1) =~= decimal(a.port->0 as nat));
    assert(host_key(b).skip(len + 1) =~= decimal(b.port->0 as nat));
    law_decimal_injective(a.port->0 as nat, b.port->0 as nat);
}

/// The last colon of a key ends the name.
proof fn lemma_name_not_longer(a: UrlParts, b: UrlParts)
    requires
        a.is_routable(),
        b.is_routable(),
        host_key(a) == host_key(b),
    ensures
        a.host->0.len() <= b.host->0.len(),
{
    let key = host_key(a);
    let len = a.host->0.len() as int;
    let other = b.host->0.len() as int;
    let port = decimal(b.port->0 as nat);
    reveal_strlit(":");
    assert(":"@ =~= seq![':']);
    assert(key[len] == ':');
    assert(key.len() == other + 1 + port.len());
    if other < len {
        assert(host_key(b)[len] == port[len - other - 1]);
        lemma_decimal_digits(b.port->0 as nat);
        assert(is_digit(ascii_bytes(port)[len - other - 1]));
    }
}

/// A group holds all URLs of the scheme on its host and no others, in the order in which they were
/// given. It holds one at least, and no other group is for that host.
pub proof fn law_group_is_its_host(
    groups: Seq<HostUrls>,
    urls: Seq<UrlParts>,
    scheme: Seq<char>,
    i: int,
    host: Seq<char>,
)
    requires
        is_table(groups, urls, scheme),
        0 <= i < groups.len(),
        groups[i].host@ == host,
    ensures
        groups[i].urls@.map_values(|url: Arc<Url>| url@) == urls.filter(
            |url: UrlParts|
                url.scheme == scheme && url.host->0 + ":"@ + decimal(url.port->0 as nat) == host,
        ),
        groups[i].urls@.len() > 0,
        forall|j: int|
            0 <= j < groups.len() && j != i ==> (#[trigger] groups[j]).host@ != host,
{
    lemma_urls_on_is_filter(urls, scheme, host);
}

/// The URLs on a host are those that match it.
proof fn lemma_urls_on_is_filter(urls: Seq<UrlParts>, scheme: Seq<char>, host: Seq<char>)
    ensures
        urls_on(urls, scheme, host) == urls.filter(
            |url: UrlParts|
                url.scheme == scheme && url.host->0 + ":"@ + decimal(url.port->0 as nat) == host,
        ),
    decreases urls.len(),
{
    reveal(Seq::filter);
    if urls.len() > 0 {
        lemma_urls_on_is_filter(urls.drop_last(), scheme, host);
    }
}

/// Every URL of a scheme has a group, for its host and port.
pub proof fn law_every_url_has_a_group(
    groups: Seq<HostUrls>,
    urls: Seq<UrlParts>,
    scheme: Seq<char>,
    k: int,
)
    requires
        is_table(groups, urls, scheme),
        0 <= k < urls.len(),
        urls[k].scheme == scheme,
    ensures
        exists|i: int|
            0 <= i < groups.len() && (#[trigger] groups[i]).host@ == urls[k].host->0 + ":"@
                + decimal(urls[k].port->0 as nat),
{
    assert(urls[k].scheme == scheme);
}

/// The URLs that cannot be followed are those of any scheme but `http` and `https`, in order.
pub proof fn law_unsupported_urls(urls: Seq<UrlParts>)
    ensures
        unsupported(urls) == urls.filter(
            |url: UrlParts| url.scheme != "http"@ && url.scheme != "https"@,
        ),
    decreases urls.len(),
{
    reveal(Seq::filter);
    if urls.len() > 0 {
        law_unsupported_urls(urls.drop_last());
    }
}

/// The URLs that are asked for are those of the options.
pub proof fn law_asked_urls(options: Options, i: int)
    requires
        0 <= i < options.urls@.len(),
    ensures
        asked(options).len() == options.urls@.len(),
        asked(options)[i] == options.urls@[i]@,
{
}

/// A call of `route` puts every URL that it looks at into the group of its host and port among
/// those of its scheme, or among the unsupported ones. It stops at the first URL without a host or
/// without a port, and says which is missing.
pub proof fn law_route(options: Options, r: Routes, k: int)
    requires
        call_ensures(route, (&options,), r),
        0 <= k < options.urls@.len(),
    ensures
        k < r.routed ==> options.urls@[k].host is Some && options.urls@[k].port is Some,
        r.routed == options.urls@.len() ==> r.fault is None,
        k == r.routed ==> (r.fault == Some(Fault::NoHost) <==> options.urls@[k].host is None),
        k == r.routed ==> (r.fault == Some(Fault::NoPort) <==> options.urls@[k].host is Some
            && options.urls@[k].port is None),
        k == r.routed ==> options.urls@[k].host is None || options.urls@[k].port is None,
        k < r.routed && options.urls@[k].scheme@ == "http"@ ==> exists|i: int|
            0 <= i < r.http@.len() && (#[trigger] r.http@[i]).host@ == options.urls@[k].host->0@
                + ":"@ + decimal(options.urls@[k].port->0 as nat) && parts(
                r.http@[i].urls@,
            ).contains(options.urls@[k]@),
        k < r.routed && options.urls@[k].scheme@ == "https"@ ==> exists|i: int|
            0 <= i < r.https@.len() && (#[trigger] r.https@[i]).host@ == options.urls@[k].host->0@
                + ":"@ + decimal(options.urls@[k].port->0 as nat) && parts(
                r.https@[i].urls@,
            ).contains(options.urls@[k]@),
        k < r.routed && options.urls@[k].scheme@ != "http"@ && options.urls@[k].scheme@ != "https"@
            ==> parts(r.unsupported@).contains(options.urls@[k]@),
{
    let all = asked(options);
    assert(all[k] == options.urls@[k]@);
    let seen = all.take(r.routed as int);
    if k == r.routed {
        match r.fault {
            Some(Fault::NoHost) => {},
            Some(Fault::NoPort) => {},
            None => {},
        }
    }
    if k < r.routed {
        assert(seen[k] == all[k]);
        assert(all[k].is_routable());
        if all[k].scheme == "http"@ {
            law_each_url_in_one_group(r.http@, seen, "http"@, k);
        } else if all[k].scheme == "https"@ {
            law_each_url_in_one_group(r.https@, seen, "https"@, k);
        } else {
            law_unsupported_urls(seen);
            seen.lemma_filter_contains(
                |url: UrlParts| url.scheme != "http"@ && url.scheme != "https"@,
                k,
            );
        }
    }
}

/// A call of `route` gives groups that hold all the URLs of their scheme, host and port among
/// those that it looked at, in their order, and nothing else.
pub proof fn law_route_groups(
    options: Options,
    r: Routes,
    groups: Seq<HostUrls>,
    scheme: Seq<char>,
    i: int,
    host: Seq<char>,
)
    requires
        call_ensures(route, (&options,), r),
        (scheme == "http"@ && groups == r.http@) || (scheme == "https"@ && groups == r.https@),
        0 <= i < groups.len(),
        groups[i].host@ == host,
    ensures
        groups[i].urls@.map_values(|url: Arc<Url>| url@) == options.urls@.map_values(
            |url: Url| url@,
        ).take(r.routed as int).filter(
            |url: UrlParts|
                url.scheme == scheme && url.host->0 + ":"@ + decimal(url.port->0 as nat) == host,
        ),
        forall|j: int|
            0 <= j < groups.len() && j != i ==> (#[trigger] groups[j]).host@ != host,
{
    law_group_is_its_host(groups, asked(options).take(r.routed as int), scheme, i, host);
}

/// A call of `route` has those URLs among the unsupported ones that it looked at and that are of
/// no scheme but `http` and `https`, in their order.
pub proof fn law_route_unsupported(options: Options, r: Routes)
    requires
        call_ensures(route, (&options,), r),
    ensures
        r.unsupported@.map_values(|url: Arc<Url>| url@) == options.urls@.map_values(
            |url: Url| url@,
        ).take(r.routed as int).filter(
            |url: UrlParts| url.scheme != "http"@ && url.scheme != "https"@,
        ),
{
    law_unsupported_urls(asked(options).take(r.routed as int));
}

} // verus!
