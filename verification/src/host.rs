//! Where the host stands in the text of a URL, and how long it may be.
//!
//! To parse a URL of most schemes is to compute the Punycode of its host, label by label, and
//! that may overflow on a label of several thousand characters. What is told here is whether it
//! does.

use vstd::prelude::*;

use crate::punycode::is_encodable;
#[allow(unused_imports)]
use crate::punycode::is_encodable_domain;

verus! {

/// The largest number of characters of a text that can be counted.
pub const MAX_TEXT: usize = 0x7fff_ffff;

/// The largest number of characters of a label that Punycode can be computed of whatever they
/// are.
///
/// A label of `n` characters makes the computation reach `n * (0x10ffff - 0x80 + 2)` at most,
/// and that has to fit in 32 bits.
pub const MAX_LABEL: u64 = 3855;

/// The largest number of characters of a domain for which it stands for no more than can be
/// counted in 32 bits.
pub const MAX_DOMAIN: usize = 238_609_294;

/// A place in the text of a URL, told by the character that stands there.
#[derive(Debug, Clone, Copy, PartialEq, Eq, Structural)]
pub enum Mark {
    /// Neither a space nor a control character.
    Visible,
    /// The end of the scheme.
    Colon,
    /// No slash of either kind.
    NoSlash,
    /// The end of userinfo, host and port.
    AuthorityEnd,
}

/// Whether a character is a slash of either kind.
pub open spec fn is_slash(c: char) -> bool {
    c == '/' || c == '\\'
}

/// Whether a character counts for nothing wherever it stands in a URL.
pub open spec fn is_skipped(c: char) -> bool {
    c == '\t' || c == '\n' || c == '\r'
}

impl Mark {
    /// Whether the mark is at a character.
    pub open spec fn is_at(self, c: char) -> bool {
        match self {
            Mark::Visible => c as u32 > 0x20,
            Mark::Colon => c == ':',
            Mark::NoSlash => !is_slash(c),
            Mark::AuthorityEnd => is_slash(c) || c == '?' || c == '#',
        }
    }

    fn found_at(self, c: char) -> (r: bool)
        ensures
            r == self.is_at(c),
    {
        match self {
            Mark::Visible => c as u32 > 0x20,
            Mark::Colon => c == ':',
            Mark::NoSlash => c != '/' && c != '\\',
            Mark::AuthorityEnd => c == '/' || c == '\\' || c == '?' || c == '#',
        }
    }
}

/// The text without the characters that count for nothing.
pub open spec fn kept(text: Seq<char>) -> Seq<char> {
    text.filter(|c: char| !is_skipped(c))
}

/// The text without the spaces and control characters at its end.
pub open spec fn trimmed(text: Seq<char>) -> Seq<char>
    decreases text.len(),
{
    if text.len() > 0 && !Mark::Visible.is_at(text.last()) {
        trimmed(text.drop_last())
    } else {
        text
    }
}

/// What stands before the first place of a kind: all of the text, if there is none.
pub open spec fn before(text: Seq<char>, mark: Mark) -> Seq<char>
    decreases text.len(),
{
    if text.len() == 0 || mark.is_at(text[0]) {
        Seq::empty()
    } else {
        seq![text[0]] + before(text.skip(1), mark)
    }
}

/// What stands from the first place of a kind on: nothing, if there is none.
pub open spec fn starting_at(text: Seq<char>, mark: Mark) -> Seq<char>
    decreases text.len(),
{
    if text.len() == 0 || mark.is_at(text[0]) {
        text
    } else {
        starting_at(text.skip(1), mark)
    }
}

/// What stands behind the last `@`: all of the text, if there is none.
pub open spec fn without_userinfo(authority: Seq<char>) -> Seq<char>
    decreases authority.len(),
{
    if authority.len() == 0 || authority.last() == '@' {
        Seq::empty()
    } else {
        without_userinfo(authority.drop_last()).push(authority.last())
    }
}

/// What stands before the first colon that is not in brackets: all of the text, if there is
/// none. `inside` tells whether the text starts in brackets.
pub open spec fn without_port(text: Seq<char>, inside: bool) -> Seq<char>
    decreases text.len(),
{
    if text.len() == 0 || (text[0] == ':' && !inside) {
        Seq::empty()
    } else {
        seq![text[0]] + without_port(
            text.skip(1),
            text[0] == '[' || (inside && text[0] != ']'),
        )
    }
}

/// Whether two letters are the same but for the case, where the second is in lower case.
pub open spec fn same_letter(letter: char, lower: char) -> bool {
    letter == lower || ('A' <= letter <= 'Z' && letter as u32 + 0x20 == lower as u32)
}

/// Whether a text is a name but for the case, where the name is in lower case.
pub open spec fn spells(text: Seq<char>, name: Seq<char>) -> bool {
    &&& text.len() == name.len()
    &&& forall|i: int| 0 <= i < text.len() ==> same_letter(#[trigger] text[i], name[i])
}

/// Whether a scheme, other than `file`, is one whose hosts are names of the network.
pub open spec fn is_network_scheme(scheme: Seq<char>) -> bool {
    ||| spells(scheme, "http"@)
    ||| spells(scheme, "https"@)
    ||| spells(scheme, "ws"@)
    ||| spells(scheme, "wss"@)
    ||| spells(scheme, "ftp"@)
    ||| spells(scheme, "gopher"@)
}

/// The host in what is kept of a text: nothing, if the scheme is not one for whose hosts
/// Punycode is computed.
pub open spec fn host_in(text: Seq<char>) -> Seq<char> {
    let scheme = before(starting_at(text, Mark::Visible), Mark::Colon);
    let colon = starting_at(text, Mark::Colon);
    let rest = colon.skip(1);
    if colon.len() == 0 {
        Seq::empty()
    } else if is_network_scheme(scheme) {
        without_port(
            without_userinfo(before(starting_at(rest, Mark::NoSlash), Mark::AuthorityEnd)),
            false,
        )
    } else if spells(scheme, "file"@) && rest.len() >= 2 && is_slash(rest[0]) && is_slash(rest[1]) {
        before(rest.skip(2), Mark::AuthorityEnd)
    } else {
        Seq::empty()
    }
}

/// The host as a text spells it.
pub open spec fn host_of(text: Seq<char>) -> Seq<char> {
    host_in(trimmed(kept(text)))
}

/// The most characters that one character of a host can stand for.
///
/// Outside of ASCII that is eighteen, for an Arabic ligature. As that takes three escapes to
/// write, an escape counts for six: four for the percent sign and one for each digit.
pub open spec fn weight(c: char) -> nat {
    if c as u32 >= 0x80 {
        18
    } else if c == '%' {
        4
    } else {
        1
    }
}

/// The most characters that a host can stand for.
pub open spec fn spread(host: Seq<char>) -> nat
    decreases host.len(),
{
    if host.len() == 0 {
        0
    } else {
        spread(host.drop_last()) + weight(host.last())
    }
}

/// Whether a host stands for ASCII labels alone: it has nothing but ASCII in it, no escape and
/// no `--`, with which a label in Punycode starts.
pub open spec fn is_plain(host: Seq<char>) -> bool {
    &&& forall|i: int| 0 <= i < host.len() ==> #[trigger] host[i] as u32 <= 0x7f && host[i] != '%'
    &&& forall|i: int, j: int|
        0 <= i < host.len() && j == i + 1 && j < host.len() ==> !(#[trigger] host[i] == '-'
            && #[trigger] host[j] == '-')
}

/// What `url::percent_encoding::percent_decode` and `decode_utf8_lossy` make of a host: the
/// domain that it spells with escapes.
pub uninterp spec fn escapes_decoded(host: Seq<char>) -> Seq<char>;

/// What `url::idna::domain_to_unicode` makes of a domain: its labels as they are before
/// Punycode is computed.
pub uninterp spec fn unicode_domain(domain: Seq<char>) -> Seq<char>;

/// Whether the Punycode of a host can be computed.
///
/// That is so if there is none to compute: for an IPv6 address and for ASCII labels. It is so
/// for any host that is short enough, and else the labels decide.
pub open spec fn is_computable(host: Seq<char>) -> bool {
    ||| host.len() > 0 && host[0] == '['
    ||| is_plain(host)
    ||| spread(host) <= MAX_LABEL
    ||| escapes_decoded(host).len() <= MAX_DOMAIN && is_encodable_domain(
        unicode_domain(escapes_decoded(host)),
    )
}

/// Whether the text is one whose characters can be counted, and the Punycode of its host can be
/// computed.
pub open spec fn host_fits(text: Seq<char>) -> bool {
    text.len() <= MAX_TEXT && is_computable(host_of(text))
}

/// Calls `url::percent_encoding::percent_decode` on the text that the characters make up, and
/// `decode_utf8_lossy` on its result. Claimed of them: the result depends on the text alone.
#[verifier::external_body]
fn decode_escapes(host: &Vec<char>) -> (r: String)
    ensures
        r@ == escapes_decoded(host@),
{
    let host: String = host.iter().collect();
    url::percent_encoding::percent_decode(host.as_bytes()).decode_utf8_lossy().into_owned()
}

/// Calls `url::idna::domain_to_unicode`, and leaves its complaints alone. Claimed of it: the
/// result depends on the domain alone.
///
/// Demanded for it: the length of what the domain stands for, which is eighteen times its own
/// at most, can be counted in 32 bits.
#[verifier::external_body]
fn domain_to_unicode(domain: &str) -> (r: String)
    requires
        domain@.len() <= MAX_DOMAIN,
    ensures
        r@ == unicode_domain(domain@),
{
    url::idna::domain_to_unicode(domain).0
}

/// The first place of a kind is where no earlier one is.
proof fn lemma_first(text: Seq<char>, mark: Mark, at: int)
    requires
        0 <= at <= text.len(),
        forall|i: int| 0 <= i < at ==> !mark.is_at(#[trigger] text[i]),
        at < text.len() ==> mark.is_at(text[at]),
    ensures
        before(text, mark) == text.take(at),
        starting_at(text, mark) == text.skip(at),
    decreases at,
{
    if at > 0 {
        let tail = text.skip(1);
        assert forall|i: int| 0 <= i < at - 1 implies !mark.is_at(#[trigger] tail[i]) by {
            assert(tail[i] == text[i + 1]);
        }
        lemma_first(tail, mark, at - 1);
        assert(seq![text[0]] + tail.take(at - 1) =~= text.take(at));
        assert(tail.skip(at - 1) =~= text.skip(at));
    } else {
        assert(text.take(0) =~= Seq::empty());
        assert(text.skip(0) =~= text);
    }
}

/// The last `@` is where no later one is.
proof fn lemma_userinfo(authority: Seq<char>, at: int)
    requires
        0 <= at <= authority.len(),
        forall|i: int| at <= i < authority.len() ==> #[trigger] authority[i] != '@',
        at > 0 ==> authority[at - 1] == '@',
    ensures
        without_userinfo(authority) == authority.skip(at),
    decreases authority.len(),
{
    if at < authority.len() {
        let init = authority.drop_last();
        lemma_userinfo(init, at);
        assert(init.skip(at).push(authority.last()) =~= authority.skip(at));
    } else {
        assert(authority.skip(at) =~= Seq::empty());
    }
}

/// The characters of a text but for those that count for nothing.
fn keep(text: &str) -> (r: Vec<char>)
    ensures
        r@ == kept(text@),
{
    let mut r: Vec<char> = Vec::new();
    assert(text@.take(0).filter(|c: char| !is_skipped(c)) =~= Seq::empty()) by {
        reveal(Seq::filter);
    }
    for c in it: text.chars()
        invariant
            it.seq() == text@,
            r@ == kept(text@.take(it.index())),
    {
        proof {
            reveal(Seq::filter);
            let i = it.index();
            assert(text@.take(i + 1).drop_last() =~= text@.take(i));
            assert(text@.take(i + 1).last() == c);
        }
        if c != '\t' && c != '\n' && c != '\r' {
            r.push(c);
        }
    }
    assert(text@.take(text@.len() as int) =~= text@);
    r
}

/// The first place of a kind in a text from some place on, or the end of the text.
fn find(text: &Vec<char>, from: usize, mark: Mark) -> (r: usize)
    requires
        from <= text.len(),
    ensures
        from <= r <= text.len(),
        before(text@.skip(from as int), mark) == text@.subrange(from as int, r as int),
        starting_at(text@.skip(from as int), mark) == text@.skip(r as int),
{
    let mut i: usize = from;
    while i < text.len() && !mark.found_at(text[i])
        invariant
            from <= i <= text.len(),
            forall|j: int| from <= j < i ==> !mark.is_at(#[trigger] text@[j]),
        decreases text.len() - i,
    {
        i += 1;
    }
    proof {
        let tail = text@.skip(from as int);
        assert forall|j: int| 0 <= j < i - from implies !mark.is_at(#[trigger] tail[j]) by {
            assert(tail[j] == text@[from + j]);
        }
        lemma_first(tail, mark, i - from);
        assert(tail.take(i - from) =~= text@.subrange(from as int, i as int));
        assert(tail.skip(i - from) =~= text@.skip(i as int));
    }
    i
}

/// Whether a stretch of a text is a name but for the case.
fn is_spelt(text: &Vec<char>, from: usize, to: usize, name: &str) -> (r: bool)
    requires
        from <= to <= text.len(),
    ensures
        r == spells(text@.subrange(from as int, to as int), name@),
{
    let len: usize = name.unicode_len();
    if to - from != len {
        return false;
    }
    let ghost stretch = text@.subrange(from as int, to as int);
    let mut i: usize = 0;
    while i < len
        invariant
            len == name@.len(),
            to - from == len,
            from <= to <= text.len(),
            i <= len,
            stretch == text@.subrange(from as int, to as int),
            forall|j: int| 0 <= j < i ==> same_letter(#[trigger] stretch[j], name@[j]),
        decreases len - i,
    {
        let letter: char = text[from + i];
        let lower: char = name.get_char(i);
        assert(stretch[i as int] == letter);
        if letter != lower {
            if !('A' <= letter && letter <= 'Z' && letter as u32 + 0x20 == lower as u32) {
                return false;
            }
        }
        i += 1;
    }
    true
}

/// Whether a stretch of a text is a network scheme.
fn is_network(text: &Vec<char>, from: usize, to: usize) -> (r: bool)
    requires
        from <= to <= text.len(),
    ensures
        r == is_network_scheme(text@.subrange(from as int, to as int)),
{
    is_spelt(text, from, to, "http") || is_spelt(text, from, to, "https") || is_spelt(
        text,
        from,
        to,
        "ws",
    ) || is_spelt(text, from, to, "wss") || is_spelt(text, from, to, "ftp") || is_spelt(
        text,
        from,
        to,
        "gopher",
    )
}

/// The place behind the last `@` in a stretch of a text.
fn skip_userinfo(text: &Vec<char>, from: usize, to: usize) -> (r: usize)
    requires
        from <= to <= text.len(),
    ensures
        from <= r <= to,
        without_userinfo(text@.subrange(from as int, to as int)) == text@.subrange(
            r as int,
            to as int,
        ),
{
    let mut i: usize = to;
    while i > from && text[i - 1] != '@'
        invariant
            from <= i <= to <= text.len(),
            forall|j: int| i <= j < to ==> #[trigger] text@[j] != '@',
        decreases i,
    {
        i -= 1;
    }
    proof {
        let authority = text@.subrange(from as int, to as int);
        assert forall|j: int| i - from <= j < authority.len() implies #[trigger] authority[j]
            != '@' by {
            assert(authority[j] == text@[from + j]);
        }
        lemma_userinfo(authority, i - from);
        assert(authority.skip(i - from) =~= text@.subrange(i as int, to as int));
    }
    i
}

/// The place of the first colon that is not in brackets in a stretch of a text, or its end.
fn find_port(text: &Vec<char>, from: usize, to: usize) -> (r: usize)
    requires
        from <= to <= text.len(),
    ensures
        from <= r <= to,
        without_port(text@.subrange(from as int, to as int), false) == text@.subrange(
            from as int,
            r as int,
        ),
{
    let ghost all = without_port(text@.subrange(from as int, to as int), false);
    let mut inside: bool = false;
    let mut i: usize = from;
    assert(text@.subrange(from as int, from as int) =~= Seq::empty());
    assert(Seq::<char>::empty() + all =~= all);
    while i < to && (text[i] != ':' || inside)
        invariant
            from <= i <= to <= text.len(),
            all == text@.subrange(from as int, i as int) + without_port(
                text@.subrange(i as int, to as int),
                inside,
            ),
        decreases to - i,
    {
        let c: char = text[i];
        let ghost tail = text@.subrange(i as int, to as int);
        let ghost next = text@.subrange(i + 1, to as int);
        inside = c == '[' || (inside && c != ']');
        proof {
            assert(tail[0] == c);
            assert(tail.skip(1) =~= next);
            assert(text@.subrange(from as int, i as int) + (seq![c] + without_port(next, inside))
                =~= text@.subrange(from as int, i + 1) + without_port(next, inside));
        }
        i += 1;
    }
    assert(all =~= text@.subrange(from as int, i as int));
    i
}

/// Where the host begins and ends, in what is kept of a text.
fn find_host(text: &Vec<char>) -> (r: (usize, usize))
    ensures
        r.0 <= r.1 <= text.len(),
        text@.subrange(r.0 as int, r.1 as int) == host_in(text@),
{
    assert(text@.skip(0) =~= text@);
    let scheme: usize = find(text, 0, Mark::Visible);
    let scheme_end: usize = find(text, scheme, Mark::Colon);
    let colon: usize = find(text, 0, Mark::Colon);
    if colon == text.len() {
        return (colon, colon);
    }
    let rest: usize = colon + 1;
    assert(text@.skip(colon as int).skip(1) =~= text@.skip(rest as int));
    if is_network(text, scheme, scheme_end) {
        let authority: usize = find(text, rest, Mark::NoSlash);
        let end: usize = find(text, authority, Mark::AuthorityEnd);
        let host: usize = skip_userinfo(text, authority, end);
        (host, find_port(text, host, end))
    } else if is_spelt(text, scheme, scheme_end, "file") && text.len() - rest >= 2
        && !Mark::NoSlash.found_at(text[rest]) && !Mark::NoSlash.found_at(text[rest + 1]) {
        let host: usize = rest + 2;
        let end: usize = find(text, host, Mark::AuthorityEnd);
        assert(text@.skip(rest as int).skip(2) =~= text@.skip(host as int));
        (host, end)
    } else {
        (rest, rest)
    }
}

/// Takes the spaces and control characters off the end of a text.
fn trim(text: &mut Vec<char>)
    ensures
        final(text)@ == trimmed(old(text)@),
        final(text)@.len() <= old(text)@.len(),
{
    let mut len: usize = text.len();
    assert(text@.take(len as int) =~= text@);
    while len > 0 && !Mark::Visible.found_at(text[len - 1])
        invariant
            len <= text.len(),
            trimmed(text@.take(len as int)) == trimmed(text@),
        decreases len,
    {
        assert(text@.take(len as int).drop_last() =~= text@.take(len - 1));
        len -= 1;
    }
    assert(trimmed(text@.take(len as int)) == text@.take(len as int));
    text.truncate(len);
}

/// Whether a host stands for ASCII labels alone.
fn is_plain_host(host: &Vec<char>) -> (r: bool)
    ensures
        r == is_plain(host@),
{
    let mut i: usize = 0;
    while i < host.len()
        invariant
            i <= host.len(),
            forall|j: int| 0 <= j < i ==> #[trigger] host@[j] as u32 <= 0x7f && host@[j] != '%',
            forall|j: int, k: int|
                0 <= j < i && k == j + 1 && k < i ==> !(#[trigger] host@[j] == '-'
                    && #[trigger] host@[k] == '-'),
        decreases host.len() - i,
    {
        let c: char = host[i];
        if c as u32 > 0x7f || c == '%' {
            return false;
        }
        if c == '-' && i > 0 && host[i - 1] == '-' {
            return false;
        }
        i += 1;
    }
    true
}

/// The most characters that a host can stand for.
fn host_spread(host: &Vec<char>) -> (r: u64)
    requires
        host.len() <= MAX_TEXT,
    ensures
        r == spread(host@),
{
    let mut r: u64 = 0;
    let mut i: usize = 0;
    assert(host@.take(0) =~= Seq::empty());
    while i < host.len()
        invariant
            i <= host.len() <= MAX_TEXT,
            r == spread(host@.take(i as int)),
            r <= 18 * i,
        decreases host.len() - i,
    {
        let c: char = host[i];
        assert(host@.take(i + 1).drop_last() =~= host@.take(i as int));
        if c as u32 >= 0x80 {
            r += 18;
        } else if c == '%' {
            r += 4;
        } else {
            r += 1;
        }
        i += 1;
    }
    assert(host@.take(i as int) =~= host@);
    r
}

/// Whether the Punycode of a host can be computed.
fn can_compute(host: &Vec<char>) -> (r: bool)
    requires
        host.len() <= MAX_TEXT,
    ensures
        r == is_computable(host@),
{
    if host.len() > 0 && host[0] == '[' {
        return true;
    }
    if is_plain_host(host) || host_spread(host) <= MAX_LABEL {
        return true;
    }
    let domain: String = decode_escapes(host);
    domain.as_str().unicode_len() <= MAX_DOMAIN && is_encodable(
        domain_to_unicode(domain.as_str()).as_str(),
    )
}

/// Tells whether a text can be handed to a URL parser: whether its host fits.
pub fn fits(text: &str) -> (r: bool)
    ensures
        r == host_fits(text@),
{
    if text.unicode_len() > MAX_TEXT {
        return false;
    }
    let mut chars: Vec<char> = keep(text);
    proof {
        text@.lemma_filter_len(|c: char| !is_skipped(c));
    }
    trim(&mut chars);
    let (from, to): (usize, usize) = find_host(&chars);
    let ghost whole = chars@;
    chars.truncate(to);
    let host: Vec<char> = chars.split_off(from);
    assert(host@ =~= whole.subrange(from as int, to as int));
    can_compute(&host)
}

/// Whether characters have no part in where a host ends: none is blank, a slash, or one of
/// `?` and `#`.
pub open spec fn is_unmarked(text: Seq<char>) -> bool {
    forall|i: int|
        0 <= i < text.len() ==> #[trigger] text[i] as u32 > 0x20 && text[i] != '/' && text[i] != '\\'
            && text[i] != '?' && text[i] != '#'
}

/// Nothing is taken off a text that has no blank in it.
proof fn lemma_kept(text: Seq<char>)
    requires
        forall|i: int| 0 <= i < text.len() ==> #[trigger] text[i] as u32 > 0x20,
    ensures
        kept(text) == text,
    decreases text.len(),
{
    reveal(Seq::filter);
    if text.len() > 0 {
        let init = text.drop_last();
        assert forall|i: int| 0 <= i < init.len() implies #[trigger] init[i] as u32 > 0x20 by {
            assert(init[i] == text[i]);
        }
        lemma_kept(init);
        assert(text[text.len() - 1] as u32 > 0x20);
        assert(init.push(text.last()) =~= text);
    } else {
        assert(kept(text) =~= text);
    }
}

/// Nothing is taken off in front of a character that is not blank.
proof fn lemma_trimmed(text: Seq<char>, tail: Seq<char>)
    requires
        text.len() > 0,
        text.last() as u32 > 0x20,
    ensures
        trimmed(text + tail) == text + trimmed(tail),
    decreases tail.len(),
{
    let all = text + tail;
    if tail.len() > 0 {
        assert(all.last() == tail.last());
        if !Mark::Visible.is_at(tail.last()) {
            assert(all.drop_last() =~= text + tail.drop_last());
            lemma_trimmed(text, tail.drop_last());
        }
    } else {
        assert(all =~= text);
        assert(text + trimmed(tail) =~= text);
    }
}

/// What starts with a mark keeps it.
proof fn lemma_tail(tail: Seq<char>)
    requires
        tail.len() > 0,
        Mark::AuthorityEnd.is_at(tail[0]),
    ensures
        trimmed(kept(tail)).len() > 0,
        trimmed(kept(tail))[0] == tail[0],
{
    let first = seq![tail[0]];
    let rest = tail.skip(1);
    assert(first + rest =~= tail);
    Seq::filter_distributes_over_add(first, rest, |c: char| !is_skipped(c));
    lemma_kept(first);
    lemma_trimmed(first, kept(rest));
}

/// A port ends a host.
proof fn lemma_without_port(host: Seq<char>, port: Seq<char>)
    requires
        forall|i: int| 0 <= i < host.len() ==> #[trigger] host[i] != ':' && host[i] != '[',
        port.len() > 0 ==> port[0] == ':',
    ensures
        without_port(host + port, false) == host,
    decreases host.len(),
{
    let all = host + port;
    if host.len() > 0 {
        let rest = host.skip(1);
        assert forall|i: int| 0 <= i < rest.len() implies #[trigger] rest[i] != ':' && rest[i]
            != '[' by {
            assert(rest[i] == host[i + 1]);
        }
        lemma_without_port(rest, port);
        assert(all[0] == host[0]);
        assert(all.skip(1) =~= rest + port);
        assert(seq![host[0]] + rest =~= host);
    } else {
        assert(all =~= port);
        assert(host =~= Seq::empty());
    }
}

/// The schemes for whose hosts Punycode is computed, but for `file`, in any case.
proof fn lemma_scheme(scheme: Seq<char>, name: Seq<char>)
    requires
        name == "http"@ || name == "https"@ || name == "ws"@ || name == "wss"@ || name == "ftp"@
            || name == "gopher"@,
        scheme.len() == name.len(),
        forall|i: int|
            0 <= i < scheme.len() ==> #[trigger] scheme[i] == name[i] || scheme[i] as u32 + 32
                == name[i] as u32,
    ensures
        scheme.len() > 0,
        is_network_scheme(scheme),
        forall|i: int|
            0 <= i < scheme.len() ==> #[trigger] scheme[i] as u32 > 0x20 && scheme[i] != ':',
{
    reveal_strlit("http");
    reveal_strlit("https");
    reveal_strlit("ws");
    reveal_strlit("wss");
    reveal_strlit("ftp");
    reveal_strlit("gopher");
    assert forall|i: int| 0 <= i < name.len() implies 'a' <= #[trigger] name[i] <= 'z' by {}
    assert forall|i: int| 0 <= i < scheme.len() implies same_letter(
        #[trigger] scheme[i],
        name[i],
    ) && scheme[i] as u32 > 0x20 && scheme[i] != ':' by {
        assert('a' <= name[i] <= 'z');
        lemma_same_letter(scheme[i], name[i]);
    }
    assert(spells(scheme, name));
}

/// A letter is the same as that of the other case.
proof fn lemma_same_letter(letter: char, lower: char)
    requires
        'a' <= lower <= 'z',
        letter == lower || letter as u32 + 32 == lower as u32,
    ensures
        same_letter(letter, lower),
        letter as u32 > 0x20,
        letter != ':',
{
}

/// What is kept of a text that has no blank up to some place.
proof fn lemma_front(front: Seq<char>, tail: Seq<char>)
    requires
        front.len() > 0,
        forall|i: int| 0 <= i < front.len() ==> #[trigger] front[i] as u32 > 0x20,
        tail.len() > 0 ==> tail[0] == '/' || tail[0] == '?' || tail[0] == '#',
    ensures
        trimmed(kept(front + tail)) == front + trimmed(kept(tail)),
        trimmed(kept(tail)).len() > 0 ==> Mark::AuthorityEnd.is_at(trimmed(kept(tail))[0]),
{
    lemma_kept(front);
    Seq::filter_distributes_over_add(front, tail, |c: char| !is_skipped(c));
    assert(front.last() == front[front.len() - 1]);
    lemma_trimmed(front, kept(tail));
    if tail.len() > 0 {
        lemma_tail(tail);
    } else {
        assert(tail =~= Seq::empty());
        lemma_kept(tail);
    }
}

/// The first colon ends the scheme.
proof fn lemma_scheme_ends(scheme: Seq<char>, rest: Seq<char>)
    requires
        scheme.len() > 0,
        forall|i: int|
            0 <= i < scheme.len() ==> #[trigger] scheme[i] as u32 > 0x20 && scheme[i] != ':',
    ensures
        before(
            starting_at(scheme + seq![':'] + rest, Mark::Visible),
            Mark::Colon,
        ) == scheme,
        starting_at(scheme + seq![':'] + rest, Mark::Colon).len() > 0,
        starting_at(scheme + seq![':'] + rest, Mark::Colon).skip(1) == rest,
{
    let len = scheme.len() as int;
    let text = scheme + seq![':'] + rest;
    assert(text[0] == scheme[0]);
    lemma_first(text, Mark::Visible, 0);
    assert(text.skip(0) =~= text);
    assert forall|i: int| 0 <= i < len implies !Mark::Colon.is_at(#[trigger] text[i]) by {
        assert(text[i] == scheme[i]);
    }
    assert(text[len] == ':');
    lemma_first(text, Mark::Colon, len);
    assert(text.take(len) =~= scheme);
    assert(text.skip(len).skip(1) =~= rest);
}

/// Behind two slashes stand userinfo, host and port.
proof fn lemma_authority(authority: Seq<char>, end: Seq<char>)
    requires
        authority.len() > 0,
        is_unmarked(authority),
        end.len() > 0 ==> Mark::AuthorityEnd.is_at(end[0]),
    ensures
        before(
            starting_at(seq!['/', '/'] + authority + end, Mark::NoSlash),
            Mark::AuthorityEnd,
        ) == authority,
{
    let rest = seq!['/', '/'] + authority + end;
    let behind = authority + end;
    let len = authority.len() as int;
    assert(rest[0] == '/' && rest[1] == '/' && rest[2] == authority[0]);
    lemma_first(rest, Mark::NoSlash, 2);
    assert(rest.skip(2) =~= behind);
    assert forall|i: int| 0 <= i < len implies !Mark::AuthorityEnd.is_at(#[trigger] behind[i]) by {
        assert(behind[i] == authority[i]);
    }
    assert(end.len() > 0 ==> behind[len] == end[0]);
    lemma_first(behind, Mark::AuthorityEnd, len);
    assert(behind.take(len) =~= authority);
}

/// Behind userinfo stand host and port.
proof fn lemma_host_port(user: Seq<char>, rest: Seq<char>)
    requires
        user.len() > 0 ==> user.last() == '@',
        forall|i: int| 0 <= i < rest.len() ==> #[trigger] rest[i] != '@',
    ensures
        without_userinfo(user + rest) == rest,
{
    let all = user + rest;
    let at = user.len() as int;
    assert forall|i: int| at <= i < all.len() implies #[trigger] all[i] != '@' by {
        assert(all[i] == rest[i - at]);
    }
    assert(at > 0 ==> all[at - 1] == user.last());
    lemma_userinfo(all, at);
    assert(all.skip(at) =~= rest);
}

/// Behind a network scheme and two slashes stands the host.
proof fn lemma_host_in(
    scheme: Seq<char>,
    user: Seq<char>,
    host: Seq<char>,
    port: Seq<char>,
    end: Seq<char>,
)
    requires
        scheme.len() > 0,
        is_network_scheme(scheme),
        forall|i: int|
            0 <= i < scheme.len() ==> #[trigger] scheme[i] as u32 > 0x20 && scheme[i] != ':',
        is_unmarked(user),
        user.len() > 0 ==> user.last() == '@',
        host.len() > 0,
        is_unmarked(host),
        forall|i: int|
            0 <= i < host.len() ==> #[trigger] host[i] != ':' && host[i] != '[' && host[i] != '@',
        is_unmarked(port),
        forall|i: int| 0 <= i < port.len() ==> #[trigger] port[i] != '@',
        port.len() > 0 ==> port[0] == ':',
        end.len() > 0 ==> Mark::AuthorityEnd.is_at(end[0]),
    ensures
        host_in(scheme + seq![':', '/', '/'] + user + host + port + end) == host,
{
    let authority = user + (host + port);
    let rest = seq!['/', '/'] + authority + end;
    assert(scheme + seq![':', '/', '/'] + user + host + port + end =~= scheme + seq![':'] + rest);
    assert forall|i: int| 0 <= i < authority.len() implies #[trigger] authority[i] as u32 > 0x20
        && authority[i] != '/' && authority[i] != '\\' && authority[i] != '?' && authority[i]
        != '#' by {
        let at = i - user.len();
        if at < 0 {
            assert(authority[i] == user[i]);
        } else if at < host.len() {
            assert(authority[i] == host[at]);
        } else {
            assert(authority[i] == port[at - host.len()]);
        }
    }
    assert forall|i: int| 0 <= i < (host + port).len() implies #[trigger] (host + port)[i] != '@' by {
        if i < host.len() {
            assert((host + port)[i] == host[i]);
        } else {
            assert((host + port)[i] == port[i - host.len()]);
        }
    }
    lemma_scheme_ends(scheme, rest);
    lemma_authority(authority, end);
    lemma_host_port(user, host + port);
    lemma_without_port(host, port);
}

/// The host of a URL stands between `://`, or the last `@` before the first slash, question mark
/// or hash, and the port or whatever else comes first, in any of the schemes for whose hosts
/// Punycode is computed but `file`, in upper case or lower case.
pub proof fn law_host_is_found(
    scheme: Seq<char>,
    name: Seq<char>,
    user: Seq<char>,
    host: Seq<char>,
    port: Seq<char>,
    tail: Seq<char>,
)
    requires
        name == "http"@ || name == "https"@ || name == "ws"@ || name == "wss"@ || name == "ftp"@
            || name == "gopher"@,
        scheme.len() == name.len(),
        forall|i: int|
            0 <= i < scheme.len() ==> #[trigger] scheme[i] == name[i] || scheme[i] as u32 + 32
                == name[i] as u32,
        is_unmarked(user),
        user.len() > 0 ==> user.last() == '@',
        host.len() > 0,
        is_unmarked(host),
        forall|i: int|
            0 <= i < host.len() ==> #[trigger] host[i] != ':' && host[i] != '[' && host[i] != '@',
        is_unmarked(port),
        forall|i: int| 0 <= i < port.len() ==> #[trigger] port[i] != '@',
        port.len() > 0 ==> port[0] == ':',
        tail.len() > 0 ==> tail[0] == '/' || tail[0] == '?' || tail[0] == '#',
    ensures
        host_of(scheme + seq![':', '/', '/'] + user + host + port + tail) == host,
{
    let slashes = seq![':', '/', '/'];
    let front = scheme + slashes + user + host + port;
    lemma_scheme(scheme, name);
    assert forall|i: int| 0 <= i < front.len() implies #[trigger] front[i] as u32 > 0x20 by {
        let at = i - scheme.len() - 3;
        if i < scheme.len() {
            assert(front[i] == scheme[i]);
        } else if at < 0 {
            assert(front[i] == slashes[i - scheme.len()]);
        } else if at < user.len() {
            assert(front[i] == user[at]);
        } else if at < user.len() + host.len() {
            assert(front[i] == host[at - user.len()]);
        } else {
            assert(front[i] == port[at - user.len() - host.len()]);
        }
    }
    lemma_front(front, tail);
    lemma_host_in(scheme, user, host, port, trimmed(kept(tail)));
}

/// A host stands for eighteen characters each at most.
proof fn lemma_spread(host: Seq<char>)
    ensures
        spread(host) <= 18 * host.len(),
    decreases host.len(),
{
    if host.len() > 0 {
        lemma_spread(host.drop_last());
    }
}

/// A URL fits whatever its length, up to what can be counted, if its host is plain ASCII, with no
/// escape and no two dashes in a row, or is of no more than 214 characters.
pub proof fn law_ordinary_urls_fit(
    scheme: Seq<char>,
    name: Seq<char>,
    user: Seq<char>,
    host: Seq<char>,
    port: Seq<char>,
    tail: Seq<char>,
)
    requires
        name == "http"@ || name == "https"@ || name == "ws"@ || name == "wss"@ || name == "ftp"@
            || name == "gopher"@,
        scheme.len() == name.len(),
        forall|i: int|
            0 <= i < scheme.len() ==> #[trigger] scheme[i] == name[i] || scheme[i] as u32 + 32
                == name[i] as u32,
        is_unmarked(user),
        user.len() > 0 ==> user.last() == '@',
        host.len() > 0,
        is_unmarked(host),
        forall|i: int|
            0 <= i < host.len() ==> #[trigger] host[i] != ':' && host[i] != '[' && host[i] != '@',
        is_unmarked(port),
        forall|i: int| 0 <= i < port.len() ==> #[trigger] port[i] != '@',
        port.len() > 0 ==> port[0] == ':',
        tail.len() > 0 ==> tail[0] == '/' || tail[0] == '?' || tail[0] == '#',
        scheme.len() + 3 + user.len() + host.len() + port.len() + tail.len() <= 0x7fff_ffff,
        host.len() <= 214 || {
            &&& forall|i: int|
                0 <= i < host.len() ==> #[trigger] host[i] as u32 <= 0x7f && host[i] != '%'
            &&& forall|i: int, j: int|
                0 <= i < host.len() && j == i + 1 && j < host.len() ==> !(#[trigger] host[i] == '-'
                    && #[trigger] host[j] == '-')
        },
    ensures
        host_fits(scheme + seq![':', '/', '/'] + user + host + port + tail),
{
    law_host_is_found(scheme, name, user, host, port, tail);
    lemma_spread(host);
}

/// A call of `fits` on a URL with such a host says that it fits.
pub proof fn law_fits(text: &str, r: bool, host: Seq<char>, tail: Seq<char>)
    requires
        call_ensures(fits, (text,), r),
        text@ == "http"@ + seq![':', '/', '/'] + host + tail || text@ == "https"@ + seq![
            ':',
            '/',
            '/',
        ] + host + tail,
        0 < host.len() <= 214,
        is_unmarked(host),
        forall|i: int|
            0 <= i < host.len() ==> #[trigger] host[i] != ':' && host[i] != '[' && host[i] != '@',
        tail.len() > 0 ==> tail[0] == '/' || tail[0] == '?' || tail[0] == '#',
        text@.len() <= 0x7fff_ffff,
    ensures
        r,
        r == host_fits(text@),
{
    let none = Seq::<char>::empty();
    let slashes = seq![':', '/', '/'];
    if text@ == "http"@ + slashes + host + tail {
        assert(text@ =~= "http"@ + slashes + none + host + none + tail);
        law_ordinary_urls_fit("http"@, "http"@, none, host, none, tail);
    } else {
        assert(text@ =~= "https"@ + slashes + none + host + none + tail);
        law_ordinary_urls_fit("https"@, "https"@, none, host, none, tail);
    }
}

/// A text fits if it can be counted, and if the labels of its host can be encoded once its escapes
/// are decoded, wherever the host ends.
pub proof fn law_encodable_hosts_fit(text: Seq<char>)
    requires
        text.len() <= 0x7fff_ffff,
        escapes_decoded(host_of(text)).len() * 18 <= 0xffff_ffff,
        is_encodable_domain(unicode_domain(escapes_decoded(host_of(text)))),
    ensures
        host_fits(text),
{
}

/// A text of a scheme with more characters than any of those for whose hosts Punycode is computed
/// fits, and so does the scheme with nothing behind.
pub proof fn law_longer_schemes_fit(scheme: Seq<char>, tail: Seq<char>)
    requires
        scheme.len() > 6,
        forall|i: int|
            0 <= i < scheme.len() ==> #[trigger] scheme[i] as u32 > 0x20 && scheme[i] != ':',
        scheme.len() + 1 + tail.len() <= 0x7fff_ffff,
    ensures
        host_fits(scheme + seq![':'] + tail),
        host_fits(scheme),
{
    reveal_strlit("http");
    reveal_strlit("https");
    reveal_strlit("ws");
    reveal_strlit("wss");
    reveal_strlit("ftp");
    reveal_strlit("gopher");
    reveal_strlit("file");
    let len = scheme.len() as int;
    let front = scheme + seq![':'];
    let end = trimmed(kept(tail));
    let text = front + end;
    assert forall|i: int| 0 <= i < front.len() implies #[trigger] front[i] as u32 > 0x20 by {
        if i < len {
            assert(front[i] == scheme[i]);
        }
    }
    lemma_kept(front);
    lemma_kept(scheme);
    Seq::filter_distributes_over_add(front, tail, |c: char| !is_skipped(c));
    assert(front.last() == front[len]);
    lemma_trimmed(front, kept(tail));
    assert(trimmed(kept(front + tail)) == text);
    assert(text[0] == scheme[0]);
    lemma_first(text, Mark::Visible, 0);
    assert(text.skip(0) =~= text);
    assert forall|i: int| 0 <= i < len implies !Mark::Colon.is_at(#[trigger] text[i]) by {
        assert(text[i] == scheme[i]);
    }
    assert(text[len] == ':');
    lemma_first(text, Mark::Colon, len);
    assert(text.take(len) =~= scheme);
    assert(host_of(front + tail) =~= Seq::empty());
    assert(trimmed(scheme) == scheme) by {
        assert(scheme[len - 1] as u32 > 0x20);
    }
    lemma_first(scheme, Mark::Colon, len);
    assert(host_of(scheme) =~= Seq::empty());
}

} // verus!
