//! What a TLS connection needs to know before it is made.

use std::sync::Arc;

use vstd::prelude::*;

use crate::routing::HostUrls;
use crate::target::Url;

verus! {

/// The part of `host` before its first colon, or all of it if there is none.
pub open spec fn before_colon(host: Seq<char>) -> Seq<char> {
    match host.index_of_first(':') {
        Some(colon) => host.take(colon),
        None => host,
    }
}

/// The name that the certificate of `host` is checked for: `host` without its port.
pub fn tls_host(host: &str) -> (name: &str)
    ensures
        name@ == before_colon(host@),
{
    proof {
        host@.index_of_first_ensures(':');
    }
    let len: usize = host.unicode_len();
    let mut i: usize = 0;
    while i < len
        invariant
            i <= len == host@.len(),
            forall|j: int| 0 <= j < i ==> host@[j] != ':',
        decreases len - i,
    {
        if host.get_char(i) == ':' {
            proof {
                host@.index_of_first_ensures(':');
                let first = host@.index_of_first(':')->0;
                assert(host@[first] == ':');
            }
            return host.substring_char(0, i);
        }
        i = i + 1;
    }
    host
}

/// The name holds no colon, and `host` starts with it.
pub proof fn law_tls_host_no_colon(host: Seq<char>)
    ensures
        !before_colon(host).contains(':'),
        before_colon(host).len() <= host.len(),
        host.take(before_colon(host).len() as int) == before_colon(host),
        !host.contains(':') ==> before_colon(host) == host,
{
    host.index_of_first_ensures(':');
}

/// Of a name and a port with a colon between them, the name remains.
pub proof fn law_tls_host_drops_port(name: Seq<char>, port: Seq<char>)
    requires
        !name.contains(':'),
    ensures
        before_colon(name + seq![':'] + port) == name,
{
    let host = name + seq![':'] + port;
    host.index_of_first_ensures(':');
    assert(host[name.len() as int] == ':');
    let first = host.index_of_first(':')->0;
    if first < name.len() {
        assert(name[first] == ':');
    }
    assert(host.take(first) =~= name);
}

/// What to do about the hosts that are reached over TLS.
#[derive(Debug, Clone, Copy, PartialEq, Eq, Structural)]
pub enum TlsPlan {
    /// There are none.
    Nothing,
    /// There are some, but the program was built without TLS.
    Unsupported,
    /// Connect to them.
    Connect,
}

/// Decides what to do about the hosts that are reached over TLS.
pub fn plan_https(hosts: &Vec<HostUrls>, tls: bool) -> (r: TlsPlan)
    ensures
        r is Nothing <==> hosts@.len() == 0,
        r is Connect <==> hosts@.len() > 0 && tls,
        r is Unsupported <==> hosts@.len() > 0 && !tls,
{
    if hosts.len() == 0 {
        TlsPlan::Nothing
    } else if tls {
        TlsPlan::Connect
    } else {
        TlsPlan::Unsupported
    }
}

/// A connection to make over TLS.
#[derive(Debug)]
pub struct TlsPeer<A> {
    /// The name that the certificate is checked for.
    pub name: String,
    /// The address to connect to.
    pub addr: A,
    /// The URLs to fetch from there.
    pub urls: Vec<Arc<Url>>,
}

/// The connection to make for a host at the address that was picked for it, if any was.
pub fn tls_peer<A>(host: HostUrls, addr: Option<A>) -> (r: Option<TlsPeer<A>>)
    ensures
        r is Some <==> addr is Some,
        r matches Some(peer) ==> {
            &&& peer.name@ == before_colon(host.host@)
            &&& peer.addr == addr->0
            &&& peer.urls == host.urls
        },
{
    match addr {
        Some(addr) => Some(
            TlsPeer { name: tls_host(host.host.as_str()).to_owned(), addr, urls: host.urls },
        ),
        None => None,
    }
}

/// The name is cut off nowhere but at a colon.
pub proof fn law_tls_host_cut_at_colon(host: Seq<char>)
    ensures
        before_colon(host).len() < host.len() ==> host[before_colon(host).len() as int] == ':',
        host.contains(':') ==> before_colon(host).len() < host.len(),
{
    host.index_of_first_ensures(':');
    if host.contains(':') {
        let first = host.index_of_first(':')->0;
        assert(host[first] == ':');
    }
}

/// A call of `plan_https` needs a connection only if there is a host, and one can be made only if
/// the program was built with TLS.
pub proof fn law_plan_https(hosts: Vec<HostUrls>, tls: bool, r: TlsPlan)
    requires
        call_ensures(plan_https, (&hosts, tls), r),
    ensures
        hosts@.len() == 0 ==> r == TlsPlan::Nothing,
        hosts@.len() > 0 && tls ==> r == TlsPlan::Connect,
        hosts@.len() > 0 && !tls ==> r == TlsPlan::Unsupported,
{
}

/// A call of `tls_peer` connects to the address that was picked, if any was, for all the URLs of
/// the host, and checks the certificate for its name, which ends at the first colon.
pub proof fn law_tls_peer<A>(host: HostUrls, addr: Option<A>, r: Option<TlsPeer<A>>)
    requires
        call_ensures(tls_peer::<A>, (host, addr), r),
    ensures
        r is Some <==> addr is Some,
        r matches Some(peer) ==> {
            &&& addr == Some(peer.addr)
            &&& peer.urls == host.urls
            &&& !peer.name@.contains(':')
            &&& peer.name@.len() <= host.host@.len()
            &&& peer.name@ == host.host@.take(peer.name@.len() as int)
            &&& peer.name@.len() < host.host@.len() ==> host.host@[peer.name@.len() as int] == ':'
        },
{
    law_tls_host_no_colon(host.host@);
    law_tls_host_cut_at_colon(host.host@);
}

/// A call of `tls_host` gives what stands before the first colon.
pub proof fn law_tls_host(host: &str, name: &str)
    requires
        call_ensures(tls_host, (host,), name),
    ensures
        !name@.contains(':'),
        name@.len() <= host@.len(),
        name@ == host@.take(name@.len() as int),
        name@.len() < host@.len() ==> host@[name@.len() as int] == ':',
{
    law_tls_host_no_colon(host@);
    law_tls_host_cut_at_colon(host@);
}

} // verus!
