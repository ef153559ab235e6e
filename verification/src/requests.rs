//! Which request to make next, what it says, and what its response means.

use std::collections::VecDeque;
use std::sync::Arc;

use vstd::prelude::*;

#[allow(unused_imports)]
use crate::content_range::{
    content_range, content_range_text, law_content_range_reads_numbers,
    law_content_range_round_trip,
};
use crate::content_range::{parse_content_range, Span};
use crate::cursor::{Cursor, LAST_TIME, MAX_STEPS, MAX_WAIT, STEP};
#[allow(unused_imports)]
use crate::cursor::{
    law_due, law_progress_is_state, leaves_gap, printed, received, Progress,
};
use crate::decimal::append_decimal;
#[allow(unused_imports)]
use crate::decimal::{decimal, number};
use crate::status::{invalid_status, is_partial_content, show_status, PARTIAL_CONTENT};
#[allow(unused_imports)]
use crate::status::{law_complaint, status_complaint, status_text};
use crate::target::Url;
#[allow(unused_imports)]
use crate::target::UrlParts;

verus! {

/// How far past the known part of a file a request goes.
pub const WINDOW: u64 = 65_535;

/// The largest response body that is accepted.
pub const MAX_BODY: usize = 65_536;

/// A request for more of a file.
#[derive(Debug, Clone, Copy, PartialEq, Eq, Structural)]
pub struct Request {
    /// Which file of [`Requests`] it is for.
    pub cursor: usize,
    /// What the response holds, once its head has been read.
    pub range: Option<Span>,
}

/// Files that are followed over one connection, and the order in which they take turns.
#[derive(Debug)]
pub struct Requests {
    pub cursors: Vec<Cursor>,
    pub queue: VecDeque<usize>,
}

impl Request {
    /// Whether the position after the last byte of the response is a number.
    pub open spec fn wf(self) -> bool {
        self.range matches Some(span) ==> span.to < u64::MAX
    }
}

impl Requests {
    /// Every file has one place in the queue.
    pub open spec fn wf(self) -> bool {
        &&& self.queue@.len() == self.cursors@.len()
        &&& self.queue@.no_duplicates()
        &&& forall|i: int|
            0 <= i < self.queue@.len() ==> #[trigger] self.queue@[i] < self.cursors@.len()
        &&& forall|i: int| 0 <= i < self.cursors@.len() ==> #[trigger] self.cursors@[i].wf()
    }
}

/// Makes a request for a file if one is due at `now`, and gives the time after which one
/// is due otherwise.
pub fn request(cursor: usize, file: &Cursor, now: u64) -> (r: Result<Request, u64>)
    requires
        file.wf(),
    ensures
        r is Ok <==> file.due(now),
        r matches Ok(request) ==> request == (Request { cursor, range: None }),
        r matches Err(time) ==> file.next_request() == Some(time as int),
{
    match &file.state {
        None => Ok(Request { cursor, range: None }),
        Some(state) => {
            if state.eof == 0 {
                return Ok(Request { cursor, range: None });
            }
            let steps: u32 = if state.eof < MAX_STEPS {
                state.eof
            } else {
                MAX_STEPS
            };
            let next: u64 = state.last_request + STEP * (steps as u64);
            if next < now {
                return Ok(Request { cursor, range: None });
            }
            Err(next)
        },
    }
}

/// The queue after its first `k` places have gone to the back.
pub open spec fn rotated(queue: Seq<usize>, k: int) -> Seq<usize> {
    queue.skip(k) + queue.take(k)
}

/// The earliest time at which one of the queued files may be due, and at the latest when
/// the longest wait is over.
pub open spec fn wake_time(cursors: Seq<Cursor>, queue: Seq<usize>, now: u64) -> int
    decreases queue.len(),
{
    if queue.len() == 0 {
        now + MAX_WAIT
    } else {
        let rest = wake_time(cursors, queue.drop_last(), now);
        match cursors[queue.last() as int].next_request() {
            Some(next) => if next < rest {
                next
            } else {
                rest
            },
            None => rest,
        }
    }
}

/// Whether `k` is the first place in the queue with a file that is due.
pub open spec fn first_due(cursors: Seq<Cursor>, queue: Seq<usize>, now: u64, k: int) -> bool {
    &&& 0 <= k < queue.len()
    &&& cursors[queue[k] as int].due(now)
    &&& forall|j: int| 0 <= j < k ==> !cursors[#[trigger] queue[j] as int].due(now)
}

/// What to do next.
#[derive(Debug, Clone, Copy, PartialEq, Eq, Structural)]
pub enum Step {
    /// Wait for the timer.
    Pending,
    /// Make this request.
    Issue(Request),
    /// Set the timer to this time, and ask again.
    Sleep(u64),
}

impl Requests {
    /// Follows these URLs, in this order.
    pub fn new(urls: Vec<Arc<Url>>) -> (r: Requests)
        ensures
            r.wf(),
            r.cursors@.len() == urls@.len(),
            forall|i: int|
                0 <= i < urls@.len() ==> (#[trigger] r.cursors@[i]).url == urls@[i]
                    && r.cursors@[i].state is None,
            forall|i: int| 0 <= i < urls@.len() ==> #[trigger] r.queue@[i] == i,
    {
        let ghost list = urls@;
        let len: usize = urls.len();
        let mut cursors: Vec<Cursor> = Vec::new();
        let mut queue: VecDeque<usize> = VecDeque::new();
        let mut i: usize = 0;
        for url in it: urls
            invariant
                it.seq() == list,
                len == list.len(),
                i == it.index(),
                cursors@.len() == i,
                queue@.len() == i,
                forall|j: int|
                    0 <= j < i ==> (#[trigger] cursors@[j]).url == list[j] && cursors@[j].state
                        is None,
                forall|j: int| 0 <= j < i ==> #[trigger] queue@[j] == j,
        {
            cursors.push(Cursor::new(url));
            queue.push_back(i);
            i = i + 1;
        }
        Requests { cursors, queue }
    }

    /// Finds the next request once the timer has gone off: the files are asked in turn,
    /// and one that gets a request goes to the back of the queue.
    pub fn poll(&mut self, timer: bool, now: u64) -> (r: Step)
        requires
            old(self).wf(),
            now <= LAST_TIME,
        ensures
            final(self).wf(),
            final(self).cursors == old(self).cursors,
            r is Pending <==> !timer,
            r is Pending ==> final(self).queue@ == old(self).queue@,
            r matches Step::Issue(request) ==> exists|k: int|
                {
                    &&& #[trigger] first_due(old(self).cursors@, old(self).queue@, now, k)
                    &&& request == (Request { cursor: old(self).queue@[k], range: None })
                    &&& final(self).queue@ == rotated(old(self).queue@, k + 1)
                },
            r matches Step::Sleep(time) ==> {
                &&& forall|i: int|
                    0 <= i < old(self).cursors@.len() ==> !(#[trigger] old(self).cursors@[i]).due(
                        now,
                    )
                &&& final(self).queue@ == old(self).queue@
                &&& time == wake_time(old(self).cursors@, old(self).queue@, now)
            },
    {
        if !timer {
            return Step::Pending;
        }
        let ghost queue = self.queue@;
        let ghost cursors = self.cursors@;
        let len: usize = self.queue.len();
        let mut time: u64 = now + MAX_WAIT;
        let mut i: usize = 0;
        assert(rotated(queue, 0) =~= queue);
        assert(queue.take(0).len() == 0);
        while i < len
            invariant
                i <= len == queue.len(),
                timer,
                old(self).wf(),
                queue == old(self).queue@,
                cursors == old(self).cursors@,
                self.cursors == old(self).cursors,
                self.queue@ == rotated(queue, i as int),
                now <= LAST_TIME,
                time == wake_time(cursors, queue.take(i as int), now),
                forall|j: int| 0 <= j < i ==> !cursors[#[trigger] queue[j] as int].due(now),
            decreases len - i,
        {
            let cursor: usize = match self.queue.pop_front() {
                Some(cursor) => cursor,
                None => {
                    assert(false);
                    0
                },
            };
            assert(cursor == queue[i as int]);
            let found: Result<Request, u64> = request(cursor, &self.cursors[cursor], now);
            self.queue.push_back(cursor);
            assert(self.queue@ =~= rotated(queue, i + 1));
            assert(queue.take(i + 1).drop_last() =~= queue.take(i as int));
            match found {
                Ok(request) => {
                    proof {
                        assert(first_due(cursors, queue, now, i as int));
                        lemma_rotated(queue, i + 1);
                    }
                    return Step::Issue(request);
                },
                Err(next) => {
                    if time > next {
                        time = next;
                    }
                },
            }
            i = i + 1;
        }
        proof {
            assert(rotated(queue, len as int) =~= queue);
            assert(queue.take(len as int) =~= queue);
            assert forall|c: int| 0 <= c < cursors.len() implies !(#[trigger] cursors[c]).due(
                now,
            ) by {
                law_every_file_queued(*old(self), c);
            }
        }
        Step::Sleep(time)
    }
}

/// Turning the queue keeps what stands in it.
proof fn lemma_rotated(queue: Seq<usize>, k: int)
    requires
        0 <= k <= queue.len(),
        queue.no_duplicates(),
    ensures
        rotated(queue, k).len() == queue.len(),
        rotated(queue, k).no_duplicates(),
        forall|i: int|
            0 <= i < queue.len() ==> #[trigger] rotated(queue, k)[i] == queue[if i < queue.len()
                - k {
                i + k
            } else {
                i + k - queue.len()
            }],
{
}

/// Every file has a place in the queue.
pub proof fn law_every_file_queued(requests: Requests, cursor: int)
    requires
        requests.wf(),
        0 <= cursor < requests.cursors@.len(),
    ensures
        exists|k: int| 0 <= k < requests.queue@.len() && #[trigger] requests.queue@[k] == cursor,
{
    let queue = requests.queue@.map_values(|c: usize| c as int);
    let all = vstd::set_lib::set_int_range(0, requests.cursors@.len() as int);
    queue.unique_seq_to_set();
    vstd::set_lib::lemma_int_range(0, requests.cursors@.len() as int);
    assert(queue.to_set().subset_of(all));
    vstd::set_lib::lemma_subset_equality(queue.to_set(), all);
    assert(queue.to_set().contains(cursor));
    let k = choose|k: int| 0 <= k < queue.len() && queue[k] == cursor;
    assert(requests.queue@[k] == cursor);
}

/// A file that is due is never passed over for good: whenever the file in the first due
/// place `k` is served, a due file in another place `p` gets nearer to the front.
pub proof fn law_due_files_advance(
    cursors: Seq<Cursor>,
    queue: Seq<usize>,
    now: u64,
    k: int,
    p: int,
)
    requires
        first_due(cursors, queue, now, k),
        0 <= p < queue.len(),
        cursors[queue[p] as int].due(now),
    ensures
        k <= p,
        k < p ==> rotated(queue, k + 1)[p - k - 1] == queue[p] && p - k - 1 < p,
{
}

/// A file that has been served waits behind all others.
pub proof fn law_served_file_goes_last(queue: Seq<usize>, k: int)
    requires
        0 <= k < queue.len(),
    ensures
        rotated(queue, k + 1).last() == queue[k],
        rotated(queue, k + 1).to_multiset() == queue.to_multiset(),
{
    assert(queue.take(k + 1) + queue.skip(k + 1) =~= queue);
    vstd::seq_lib::lemma_multiset_commutative(queue.take(k + 1), queue.skip(k + 1));
    vstd::seq_lib::lemma_multiset_commutative(queue.skip(k + 1), queue.take(k + 1));
}

/// The timer is set neither into the past, nor past the longest wait, nor past the time of
/// any file.
pub proof fn law_wakes_in_time(cursors: Seq<Cursor>, queue: Seq<usize>, now: u64)
    requires
        forall|i: int|
            0 <= i < queue.len() ==> !cursors[#[trigger] queue[i] as int].due(now),
    ensures
        now <= wake_time(cursors, queue, now) <= now + MAX_WAIT,
        forall|i: int|
            0 <= i < queue.len() ==> wake_time(cursors, queue, now)
                <= cursors[#[trigger] queue[i] as int].next_request()->0,
    decreases queue.len(),
{
    if queue.len() > 0 {
        let init = queue.drop_last();
        assert forall|i: int| 0 <= i < init.len() implies !cursors[#[trigger] init[i] as int].due(
            now,
        ) by {
            assert(init[i] == queue[i]);
        }
        law_wakes_in_time(cursors, init, now);
        assert(!cursors[queue[queue.len() - 1] as int].due(now));
        assert forall|i: int| 0 <= i < queue.len() implies wake_time(cursors, queue, now)
            <= cursors[#[trigger] queue[i] as int].next_request()->0 by {
            if i < init.len() {
                assert(init[i] == queue[i]);
            }
        }
    }
}

/// A version of HTTP.
#[derive(Debug, Clone, Copy, PartialEq, Eq, Structural)]
pub enum Version {
    Http10,
    Http11,
}

/// The head of a request.
#[derive(Debug)]
pub struct RequestHead {
    pub method: String,
    pub path: String,
    pub version: Version,
    /// Names and values of the fields, in order.
    pub fields: Vec<(String, String)>,
}

/// What a field says.
pub open spec fn field_text(field: (String, String)) -> (Seq<char>, Seq<char>) {
    (field.0@, field.1@)
}

/// The range to ask for: the end of a file of which nothing is known, and else the last
/// known byte and the window after it.
pub open spec fn range_text(progress: Option<Progress>) -> Seq<char> {
    match progress {
        Some(progress) => "bytes="@ + decimal((progress.offset - 1) as nat) + "-"@ + decimal(
            (progress.offset + WINDOW) as nat,
        ),
        None => "bytes=-4096"@,
    }
}

/// The fields of a request: the host, if the URL has one, and the range.
pub open spec fn request_fields(
    url: UrlParts,
    progress: Option<Progress>,
) -> Seq<(Seq<char>, Seq<char>)> {
    let range = ("Range"@, range_text(progress));
    match url.host {
        Some(host) => seq![("Host"@, host), range],
        None => seq![range],
    }
}

impl Cursor {
    /// Whether the end of the window is a number.
    pub open spec fn window_fits(self) -> bool {
        self.progress() matches Some(progress) ==> progress.offset + WINDOW <= u64::MAX
    }
}

impl Requests {
    /// Words a request.
    pub fn start_write(&self, request: &Request) -> (r: RequestHead)
        requires
            self.wf(),
            request.cursor < self.cursors@.len(),
            self.cursors@[request.cursor as int].window_fits(),
        ensures
            r.method@ == "GET"@,
            r.path@ == self.cursors@[request.cursor as int].url@.path,
            r.version == Version::Http11,
            r.fields@.map_values(|f: (String, String)| field_text(f)) == request_fields(
                self.cursors@[request.cursor as int].url@,
                self.cursors@[request.cursor as int].progress(),
            ),
            r.path@ == self.cursors@[request.cursor as int].url.path@,
            match self.cursors@[request.cursor as int].url.host {
                Some(host) => {
                    &&& r.fields@.len() == 2
                    &&& r.fields@[0].0@ == "Host"@
                    &&& r.fields@[0].1@ == host@
                },
                None => r.fields@.len() == 1,
            },
            r.fields@.last().0@ == "Range"@,
            r.fields@.last().1@ == match self.cursors@[request.cursor as int].state {
                Some(state) => "bytes="@ + decimal((state.offset - 1) as nat) + "-"@ + decimal(
                    (state.offset + 65_535) as nat,
                ),
                None => "bytes=-4096"@,
            },
    {
        let file: &Cursor = &self.cursors[request.cursor];
        assert(self.cursors@[request.cursor as int].wf());
        let mut fields: Vec<(String, String)> = Vec::new();
        match &file.url.host {
            Some(host) => {
                fields.push(("Host".to_owned(), host.clone()));
            },
            None => {},
        }
        let range: String = match &file.state {
            Some(state) => {
                let mut range: String = "bytes=".to_owned();
                append_decimal(&mut range, state.offset - 1);
                range.append("-");
                append_decimal(&mut range, state.offset + WINDOW);
                range
            },
            None => "bytes=-4096".to_owned(),
        };
        fields.push(("Range".to_owned(), range));
        let r = RequestHead {
            method: "GET".to_owned(),
            path: file.url.path.clone(),
            version: Version::Http11,
            fields,
        };
        assert(r.fields@.map_values(|f: (String, String)| field_text(f)) =~= request_fields(
            file.url@,
            file.progress(),
        ));
        r
    }

    /// Takes the body of a response into account that is complete at `now`.
    pub fn data_received(
        &mut self,
        request: &Request,
        data: &[u8],
        end: bool,
        now: u64,
    ) -> (r: Delivery)
        requires
            old(self).wf(),
            request.wf(),
            request.cursor < old(self).cursors@.len(),
            request.range is Some,
            end,
            now <= LAST_TIME,
        ensures
            final(self).wf(),
            final(self).queue == old(self).queue,
            r.consumed == data@.len(),
            r.output@ == printed(
                old(self).cursors@[request.cursor as int].progress(),
                request.range->0,
                data@,
            ),
            final(self).cursors@.len() == old(self).cursors@.len(),
            final(self).cursors@[request.cursor as int].url == old(
                self,
            ).cursors@[request.cursor as int].url,
            final(self).cursors@[request.cursor as int].progress() == Some(
                received(
                    old(self).cursors@[request.cursor as int].progress(),
                    request.range->0,
                    data@,
                    now,
                ),
            ),
            forall|i: int|
                0 <= i < old(self).cursors@.len() && i != request.cursor ==> final(self).cursors@[i]
                    == old(self).cursors@[i],
    {
        let ghost cursors = self.cursors@;
        let span: Span = match request.range {
            Some(span) => span,
            None => {
                assert(false);
                Span { from: 0, to: 0, total: 0 }
            },
        };
        assert(cursors[request.cursor as int].wf());
        let output: Vec<u8> = self.cursors[request.cursor].receive(span, data, now);
        assert forall|i: int| 0 <= i < self.cursors@.len() implies #[trigger] self.cursors@[i].wf() by {
            if i != request.cursor {
                assert(self.cursors@[i] == cursors[i]);
            }
        }
        Delivery { output, consumed: data.len() }
    }
}

/// What comes of a response body.
#[derive(Debug)]
pub struct Delivery {
    /// What to print.
    pub output: Vec<u8>,
    /// How many bytes of the body have been used.
    pub consumed: usize,
}

/// Why the head of a response is refused.
#[derive(Debug)]
pub enum HeadError {
    /// The response is not a partial one; with the complaint.
    InvalidStatus(String),
    /// A `Content-Range` field is malformed.
    MalformedRange,
}

/// What the name and the value of a response field say.
pub open spec fn field_bytes(field: (String, Vec<u8>)) -> (Seq<char>, Seq<u8>) {
    (field.0@, field.1@)
}

/// Whether a `Content-Range` field is malformed.
pub open spec fn has_malformed_range(fields: Seq<(Seq<char>, Seq<u8>)>) -> bool {
    exists|i: int|
        0 <= i < fields.len() && (#[trigger] fields[i]).0 == "Content-Range"@ && content_range(
            fields[i].1,
        ) is None
}

/// The span in the last `Content-Range` field, or `before` if there is no such field.
pub open spec fn last_range(
    fields: Seq<(Seq<char>, Seq<u8>)>,
    before: Option<Span>,
) -> Option<Span>
    decreases fields.len(),
{
    if fields.len() == 0 {
        before
    } else if fields.last().0 == "Content-Range"@ {
        content_range(fields.last().1)
    } else {
        last_range(fields.drop_last(), before)
    }
}

impl Request {
    /// Reads the head of a response, and returns the largest body that is accepted.
    ///
    /// Names of fields are told apart by case.
    pub fn headers_received(&mut self, status: u16, fields: &Vec<(String, Vec<u8>)>) -> (r: Result<
        usize,
        HeadError,
    >)
        requires
            old(self).wf(),
        ensures
            final(self).wf(),
            final(self).cursor == old(self).cursor,
            ({
                let texts = fields@.map_values(|f: (String, Vec<u8>)| field_bytes(f));
                match r {
                    Ok(limit) => {
                        &&& status == PARTIAL_CONTENT
                        &&& !has_malformed_range(texts)
                        &&& limit == MAX_BODY
                        &&& final(self).range == last_range(texts, old(self).range)
                    },
                    Err(HeadError::InvalidStatus(message)) => {
                        &&& status != PARTIAL_CONTENT
                        &&& message@ == status_complaint(status_text(status))
                        &&& final(self).range == old(self).range
                    },
                    Err(HeadError::MalformedRange) => {
                        &&& status == PARTIAL_CONTENT
                        &&& has_malformed_range(texts)
                        &&& final(self).range == old(self).range
                    },
                }
            }),
            r is Ok ==> status == 206 && r->Ok_0 == 65_536,
            status != 206 ==> r matches Err(HeadError::InvalidStatus(_)),
            r is Ok ==> forall|i: int|
                0 <= i < fields@.len() && (#[trigger] fields@[i]).0@ == "Content-Range"@ && (forall|
                    j: int,
                |
                    i < j < fields@.len() ==> (#[trigger] fields@[j]).0@ != "Content-Range"@)
                    ==> final(self).range == content_range(fields@[i].1@),
            r is Ok ==> (forall|i: int|
                0 <= i < fields@.len() ==> (#[trigger] fields@[i]).0@ != "Content-Range"@)
                ==> final(self).range == old(self).range,
    {
        if !is_partial_content(status) {
            return Err(HeadError::InvalidStatus(invalid_status(show_status(status).as_str())));
        }
        let ghost texts = fields@.map_values(|f: (String, Vec<u8>)| field_bytes(f));
        let name: String = "Content-Range".to_owned();
        let mut range: Option<Span> = self.range;
        let mut i: usize = 0;
        while i < fields.len()
            invariant
                i <= fields@.len(),
                status == PARTIAL_CONTENT,
                name@ == "Content-Range"@,
                texts == fields@.map_values(|f: (String, Vec<u8>)| field_bytes(f)),
                self == old(self),
                self.wf(),
                range matches Some(span) ==> span.to < u64::MAX,
                range == last_range(texts.take(i as int), old(self).range),
                forall|j: int|
                    0 <= j < i ==> (#[trigger] texts[j]).0 == "Content-Range"@ ==> content_range(
                        texts[j].1,
                    ) is Some,
            decreases fields.len() - i,
        {
            assert(texts[i as int] == field_bytes(fields@[i as int]));
            assert(texts.take(i + 1).drop_last() =~= texts.take(i as int));
            assert(texts.take(i + 1).last() == texts[i as int]);
            if fields[i].0 == name {
                match parse_content_range(fields[i].1.as_slice()) {
                    Some(span) => {
                        range = Some(span);
                    },
                    None => {
                        return Err(HeadError::MalformedRange);
                    },
                }
            }
            i = i + 1;
        }
        assert(texts.take(i as int) =~= texts);
        self.range = range;
        proof {
            assert forall|k: int| 0 <= k < texts.len() implies #[trigger] texts[k] == field_bytes(
                fields@[k],
            ) by {}
            assert forall|k: int|
                0 <= k < fields@.len() && (#[trigger] fields@[k]).0@ == "Content-Range"@ && (forall|
                    j: int,
                |
                    k < j < fields@.len() ==> (#[trigger] fields@[j]).0@
                        != "Content-Range"@) implies self.range == content_range(fields@[k].1@) by {
                assert(texts[k] == field_bytes(fields@[k]));
                assert forall|j: int| k < j < texts.len() implies (#[trigger] texts[j]).0
                    != "Content-Range"@ by {
                    assert(fields@[j].0@ != "Content-Range"@);
                }
                law_last_content_range_counts(texts, old(self).range, k);
            }
            if forall|k: int|
                0 <= k < fields@.len() ==> (#[trigger] fields@[k]).0@ != "Content-Range"@ {
                assert forall|j: int| -1 < j < texts.len() implies (#[trigger] texts[j]).0
                    != "Content-Range"@ by {
                    assert(fields@[j].0@ != "Content-Range"@);
                }
                law_last_content_range_counts(texts, old(self).range, -1);
            }
        }
        Ok(MAX_BODY)
    }
}

/// A server that answers with the range it was asked for leaves no gap: the range starts
/// with the last byte received, and goes on for the window.
pub proof fn law_asked_range_leaves_no_gap(progress: Progress, span: Span)
    requires
        progress.wf(),
        span.from == progress.offset - 1,
    ensures
        range_text(Some(progress)) == "bytes="@ + decimal(span.from as nat) + "-"@ + decimal(
            (span.from + 1 + WINDOW) as nat,
        ),
        !leaves_gap(Some(progress), span),
{
}

/// A head with `Content-Range` fields that are all well-formed says what the body holds.
pub proof fn law_head_gives_range(fields: Seq<(Seq<char>, Seq<u8>)>, before: Option<Span>, i: int)
    requires
        !has_malformed_range(fields),
        0 <= i < fields.len(),
        fields[i].0 == "Content-Range"@,
    ensures
        last_range(fields, before) is Some,
        last_range(fields, before)->0.to < u64::MAX,
    decreases fields.len(),
{
    let last = fields.last();
    assert(fields[fields.len() - 1] == last);
    if last.0 != "Content-Range"@ {
        let init = fields.drop_last();
        assert(init[i] == fields[i]);
        if has_malformed_range(init) {
            let j = choose|j: int|
                0 <= j < init.len() && (#[trigger] init[j]).0 == "Content-Range"@
                    && content_range(init[j].1) is None;
            assert(fields[j] == init[j]);
        }
        law_head_gives_range(init, before, i);
    }
}

/// Files take turns: those in front of a place go behind the others, and both keep their order.
pub proof fn law_turns(queue: Seq<usize>, k: int, i: int)
    requires
        0 <= k <= queue.len(),
        0 <= i < queue.len(),
    ensures
        rotated(queue, k).len() == queue.len(),
        i >= k ==> rotated(queue, k)[i - k] == queue[i],
        i < k ==> rotated(queue, k)[queue.len() - k + i] == queue[i],
{
}

/// The file that is served is due, and none of those that wait in front of it is.
pub proof fn law_first_due_is_served(cursors: Seq<Cursor>, queue: Seq<usize>, now: u64, k: int)
    ensures
        first_due(cursors, queue, now, k) <==> {
            &&& 0 <= k < queue.len()
            &&& cursors[queue[k] as int].due(now)
            &&& forall|j: int| 0 <= j < k ==> !cursors[#[trigger] queue[j] as int].due(now)
        },
        forall|j: int|
            first_due(cursors, queue, now, k) && #[trigger] first_due(cursors, queue, now, j)
                ==> j == k,
{
}

/// The timer is set to the earliest time at which a file is due, and to no time at which none
/// is, unless seven seconds have gone by.
pub proof fn law_wakes_for_a_reason(cursors: Seq<Cursor>, queue: Seq<usize>, now: u64)
    ensures
        wake_time(cursors, queue, now) <= now + 7_000_000_000,
        forall|i: int|
            0 <= i < queue.len() ==> (cursors[#[trigger] queue[i] as int].next_request() matches Some(
                next,
            ) ==> wake_time(cursors, queue, now) <= next),
        wake_time(cursors, queue, now) < now + 7_000_000_000 ==> exists|i: int|
            0 <= i < queue.len() && cursors[#[trigger] queue[i] as int].next_request() == Some(
                wake_time(cursors, queue, now),
            ),
    decreases queue.len(),
{
    if queue.len() > 0 {
        let init = queue.drop_last();
        law_wakes_for_a_reason(cursors, init, now);
        let last = queue.len() - 1;
        assert(queue[last] == queue.last());
        assert forall|i: int| 0 <= i < queue.len() implies (cursors[
            #[trigger] queue[i] as int].next_request() matches Some(next) ==> wake_time(
            cursors,
            queue,
            now,
        ) <= next) by {
            if i < last {
                assert(init[i] == queue[i]);
            }
        }
        if wake_time(cursors, queue, now) < now + 7_000_000_000 {
            if wake_time(cursors, queue, now) == wake_time(cursors, init, now) {
                let i = choose|i: int|
                    0 <= i < init.len() && cursors[#[trigger] init[i] as int].next_request() == Some(
                        wake_time(cursors, init, now),
                    );
                assert(queue[i] == init[i]);
            }
        }
    }
}

/// Every request for a URL with a host names that host, once. A URL without a host makes a
/// request that names none.
pub proof fn law_host_is_named(url: UrlParts, progress: Option<Progress>, i: int)
    requires
        0 <= i < request_fields(url, progress).len(),
    ensures
        url.host matches Some(host) ==> request_fields(url, progress)[0] == ("Host"@, host),
        request_fields(url, progress)[i].0 == "Host"@ <==> i == 0 && url.host is Some,
{
    reveal_strlit("Host");
    reveal_strlit("Range");
    assert("Host"@.len() != "Range"@.len());
}

/// Every request asks for one range: for the last 4096 bytes of a file of which nothing is
/// known, and else for the last byte that was received and the 65536 after it.
pub proof fn law_range_is_asked_for(url: UrlParts, progress: Option<Progress>, i: int)
    requires
        progress matches Some(progress) ==> progress.offset >= 1,
        0 <= i < request_fields(url, progress).len(),
    ensures
        request_fields(url, progress)[i].0 == "Range"@ <==> i == request_fields(
            url,
            progress,
        ).len() - 1,
        request_fields(url, progress).last().1 == match progress {
            Some(progress) => "bytes="@ + decimal((progress.offset - 1) as nat) + "-"@ + decimal(
                (progress.offset + 65_535) as nat,
            ),
            None => "bytes=-4096"@,
        },
{
    reveal_strlit("Host");
    reveal_strlit("Range");
    assert("Host"@.len() != "Range"@.len());
}

/// After any response the next request starts with the last byte of that response, and an answer
/// to it that starts there leaves no gap.
pub proof fn law_next_request_follows_on(
    url: UrlParts,
    before: Option<Progress>,
    span: Span,
    data: Seq<u8>,
    now: u64,
    answer: Span,
)
    requires
        span.to < u64::MAX,
        answer.from == span.to,
    ensures
        ({
            let after = received(before, span, data, now);
            &&& request_fields(url, Some(after)).last() == (
                "Range"@,
                "bytes="@ + decimal(span.to as nat) + "-"@ + decimal((span.to + 65_536) as nat),
            )
            &&& !leaves_gap(Some(after), answer)
        }),
{
}

/// A request can be worded unless the end of what it asks for is more than 64 bits hold.
pub proof fn law_window_fits(file: Cursor)
    ensures
        file.window_fits() <==> match file.state {
            Some(state) => state.offset + 65_535 <= u64::MAX,
            None => true,
        },
{
}

/// The last `Content-Range` field is the one that counts, and none leaves what was known.
pub proof fn law_last_content_range_counts(
    fields: Seq<(Seq<char>, Seq<u8>)>,
    before: Option<Span>,
    i: int,
)
    requires
        -1 <= i < fields.len(),
        i >= 0 ==> fields[i].0 == "Content-Range"@,
        forall|j: int| i < j < fields.len() ==> (#[trigger] fields[j]).0 != "Content-Range"@,
    ensures
        last_range(fields, before) == if i >= 0 {
            content_range(fields[i].1)
        } else {
            before
        },
    decreases fields.len(),
{
    if fields.len() > 0 {
        let last = fields.len() - 1;
        assert(fields[last] == fields.last());
        if i < last {
            let init = fields.drop_last();
            assert forall|j: int| i < j < init.len() implies (#[trigger] init[j]).0
                != "Content-Range"@ by {
                assert(init[j] == fields[j]);
            }
            law_last_content_range_counts(init, before, i);
        }
    }
}

/// Of a head with one `Content-Range` field that holds three numbers, those are recorded as they
/// are, whatever other fields there are and whatever was known before.
pub proof fn law_written_range_is_recorded(
    fields: Seq<(Seq<char>, Seq<u8>)>,
    before: Option<Span>,
    i: int,
    from: u64,
    to: u64,
    total: u64,
)
    requires
        0 <= i < fields.len(),
        fields[i] == ("Content-Range"@, content_range_text(from, to, total)),
        forall|j: int|
            0 <= j < fields.len() && j != i ==> (#[trigger] fields[j]).0 != "Content-Range"@,
        to < u64::MAX,
    ensures
        !has_malformed_range(fields),
        last_range(fields, before) == Some(Span { from, to, total }),
{
    law_content_range_round_trip(from, to, total);
    law_last_content_range_counts(fields, before, i);
    if has_malformed_range(fields) {
        let j = choose|j: int|
            0 <= j < fields.len() && (#[trigger] fields[j]).0 == "Content-Range"@ && content_range(
                fields[j].1,
            ) is None;
        assert(j == i);
    }
}

/// The same for numbers that are written in any way, with leading zeros or a sign.
pub proof fn law_numbers_are_recorded(
    fields: Seq<(Seq<char>, Seq<u8>)>,
    before: Option<Span>,
    i: int,
    f: Seq<u8>,
    t: Seq<u8>,
    n: Seq<u8>,
)
    requires
        0 <= i < fields.len(),
        fields[i].0 == "Content-Range"@,
        fields[i].1 == seq![0x62u8, 0x79, 0x74, 0x65, 0x73, 0x20] + f + seq![0x2du8] + t + seq![
            0x2fu8,
        ] + n,
        forall|j: int| i < j < fields.len() ==> (#[trigger] fields[j]).0 != "Content-Range"@,
        number(f) is Some,
        number(t) is Some,
        number(n) is Some,
        number(t)->0 < u64::MAX,
    ensures
        last_range(fields, before) == Some(
            Span { from: number(f)->0, to: number(t)->0, total: number(n)->0 },
        ),
{
    law_content_range_reads_numbers(f, t, n);
    law_last_content_range_counts(fields, before, i);
}

/// A head is malformed only for a `Content-Range` field that says nothing, and always for one.
pub proof fn law_malformed_heads(fields: Seq<(Seq<char>, Seq<u8>)>, i: int)
    ensures
        0 <= i < fields.len() && fields[i].0 == "Content-Range"@ && content_range(fields[i].1)
            is None ==> has_malformed_range(fields),
        (forall|j: int|
            0 <= j < fields.len() ==> (#[trigger] fields[j]).0 != "Content-Range"@ || content_range(
                fields[j].1,
            ) is Some) ==> !has_malformed_range(fields),
{
}

/// A call of `request` gives a request for the file that it is asked about, if one is due, and
/// else the time after which one is.
pub proof fn law_request(cursor: usize, file: Cursor, now: u64, r: Result<Request, u64>)
    requires
        call_ensures(request, (cursor, &file, now), r),
    ensures
        r is Ok <==> match file.state {
            Some(state) => state.eof == 0 || state.last_request + 100_000_000 * (if state.eof < 70 {
                state.eof as int
            } else {
                70
            }) < now,
            None => true,
        },
        r is Ok ==> r->Ok_0.cursor == cursor && r->Ok_0.range is None,
        r is Err ==> r->Err_0 == file.state->0.last_request + 100_000_000 * (if file.state->0.eof
            < 70 {
            file.state->0.eof as int
        } else {
            70
        }),
{
    law_due(file, now);
}

/// A call of `Requests::new` follows each of the URLs, and asks for them in their order.
pub proof fn law_new_requests(urls: Vec<Arc<Url>>, r: Requests, i: int)
    requires
        call_ensures(Requests::new, (urls,), r),
        0 <= i < urls@.len(),
    ensures
        r.wf(),
        r.cursors@.len() == urls@.len(),
        r.queue@.len() == urls@.len(),
        r.cursors@[i].url == urls@[i],
        r.cursors@[i].state is None,
        r.queue@[i] == i,
{
}

/// A call of `Requests::poll` changes nothing of what is known of the files. Until the timer has
/// gone off, it does nothing. Then it serves the first file in the queue that is due, which goes
/// to the very end, behind those that were passed over, while all keep their order.
pub proof fn law_poll_serves_in_turn(
    requests: &mut Requests,
    timer: bool,
    now: u64,
    step: Step,
    i: int,
)
    requires
        call_ensures(Requests::poll, (requests, timer, now), step),
        0 <= i < old(requests).queue@.len(),
    ensures
        final(requests).cursors == old(requests).cursors,
        final(requests).queue@.len() == old(requests).queue@.len(),
        step is Pending <==> !timer,
        step !is Issue ==> final(requests).queue@ == old(requests).queue@,
        step matches Step::Issue(request) ==> {
            let before = old(requests).queue@;
            let after = final(requests).queue@;
            let files = old(requests).cursors@;
            &&& request.range is None
            &&& files[request.cursor as int].due(now)
            &&& after.last() == request.cursor
            &&& exists|k: int|
                #![trigger before[k]]
                {
                    &&& 0 <= k < before.len()
                    &&& before[k] == request.cursor
                    &&& i < k ==> !files[before[i] as int].due(now)
                    &&& i <= k ==> after[before.len() - k - 1 + i] == before[i]
                    &&& i > k ==> after[i - k - 1] == before[i]
                }
        },
{
    if step is Issue {
        let request = step->Issue_0;
        let before = old(requests).queue@;
        let files = old(requests).cursors@;
        let k = choose|k: int|
            {
                &&& #[trigger] first_due(files, before, now, k)
                &&& request == (Request { cursor: before[k], range: None })
                &&& final(requests).queue@ == rotated(before, k + 1)
            };
        law_first_due_is_served(files, before, now, k);
        law_turns(before, k + 1, i);
        law_turns(before, k + 1, k);
        assert(before[k] == request.cursor);
    }
}

/// A call of `Requests::poll` sleeps only if no file is due. It sets the timer to the earliest
/// time at which a file is, or to seven seconds from now if that is earlier.
pub proof fn law_poll_sleeps_until_due(
    requests: &mut Requests,
    timer: bool,
    now: u64,
    step: Step,
    i: int,
)
    requires
        call_ensures(Requests::poll, (requests, timer, now), step),
        old(requests).wf(),
        step is Sleep,
        0 <= i < old(requests).cursors@.len(),
    ensures
        !old(requests).cursors@[i].due(now),
        step->Sleep_0 <= now + 7_000_000_000,
        old(requests).cursors@[i].next_request() matches Some(next) ==> step->Sleep_0 <= next,
        step->Sleep_0 < now + 7_000_000_000 ==> exists|c: int|
            0 <= c < old(requests).cursors@.len() && (
            #[trigger] old(requests).cursors@[c]).next_request() == Some(step->Sleep_0 as int),
{
    let files = old(requests).cursors@;
    let queue = old(requests).queue@;
    law_wakes_for_a_reason(files, queue, now);
    law_every_file_queued(*old(requests), i);
    let k = choose|k: int| 0 <= k < queue.len() && #[trigger] queue[k] == i;
    assert(files[queue[k] as int] == files[i]);
    if step->Sleep_0 < now + 7_000_000_000 {
        let k = choose|k: int|
            0 <= k < queue.len() && files[#[trigger] queue[k] as int].next_request() == Some(
                wake_time(files, queue, now),
            );
        assert(files[queue[k] as int].next_request() == Some(step->Sleep_0 as int));
    }
}

/// A call of `Requests::start_write` words a request of the file's URL: GET, its path, and
/// HTTP/1.1, with the host of the URL, if it has one, and one range.
pub proof fn law_request_is_worded(requests: Requests, request: Request, head: RequestHead)
    requires
        call_ensures(Requests::start_write, (&requests, &request), head),
    ensures
        ({
            let file = requests.cursors@[request.cursor as int];
            let fields = head.fields@;
            &&& head.method@ == "GET"@
            &&& head.path@ == file.url.path@
            &&& head.version == Version::Http11
            &&& file.url.host matches Some(host) ==> fields.len() == 2 && fields[0].0@ == "Host"@
                && fields[0].1@ == host@
            &&& file.url.host is None ==> fields.len() == 1
            &&& fields.last().0@ == "Range"@
            &&& file.state is None ==> fields.last().1@ == "bytes=-4096"@
            &&& file.state matches Some(state) ==> fields.last().1@ == "bytes="@ + decimal(
                (state.offset - 1) as nat,
            ) + "-"@ + decimal((state.offset + 65_535) as nat)
        }),
{
}

/// A call of `Requests::data_received` takes the body to the file of the request and to no other,
/// in the way that `Cursor::receive` does, uses all of it and leaves the queue alone.
pub proof fn law_body_goes_to_its_file(
    requests: &mut Requests,
    request: Request,
    data: &[u8],
    end: bool,
    now: u64,
    delivery: Delivery,
    i: int,
)
    requires
        call_ensures(Requests::data_received, (requests, &request, data, end, now), delivery),
        request.range is Some,
        request.range->0.to < u64::MAX,
        request.cursor < old(requests).cursors@.len(),
        0 <= i < old(requests).cursors@.len(),
    ensures
        final(requests).queue == old(requests).queue,
        final(requests).cursors@.len() == old(requests).cursors@.len(),
        i != request.cursor ==> final(requests).cursors@[i] == old(requests).cursors@[i],
        delivery.consumed == data@.len(),
        ({
            let before = old(requests).cursors@[request.cursor as int];
            let after = final(requests).cursors@[request.cursor as int];
            let span = request.range->0;
            &&& after.url == before.url
            &&& after.state is Some
            &&& after.state->0.offset == span.to + 1
            &&& after.state->0.last_request == now
            &&& after.progress() == Some(received(before.progress(), span, data@, now))
            &&& delivery.output@ == printed(before.progress(), span, data@)
        }),
{
    let after = final(requests).cursors@[request.cursor as int];
    law_progress_is_state(after);
}

/// A call of `Request::headers_received` accepts a head if it is of a partial response and none of
/// its `Content-Range` fields is malformed. It then records what the last one says, and takes a
/// body of up to 65536 bytes. A head that is refused leaves the request as it was.
pub proof fn law_head_is_read(
    request: &mut Request,
    status: u16,
    fields: Vec<(String, Vec<u8>)>,
    r: Result<usize, HeadError>,
    i: int,
)
    requires
        call_ensures(Request::headers_received, (request, status, &fields), r),
        0 <= i < fields@.len(),
        fields@[i].0@ == "Content-Range"@,
        forall|j: int| i < j < fields@.len() ==> (#[trigger] fields@[j]).0@ != "Content-Range"@,
    ensures
        final(request).cursor == old(request).cursor,
        r is Ok ==> status == 206 && r->Ok_0 == 65_536,
        status != 206 ==> r is Err && r->Err_0 is InvalidStatus,
        r is Err ==> final(request).range == old(request).range,
        r is Ok ==> final(request).range == content_range(fields@[i].1@),
        status == 206 ==> (r is Ok <==> forall|j: int|
            0 <= j < fields@.len() ==> (#[trigger] fields@[j]).0@ != "Content-Range"@
                || content_range(fields@[j].1@) is Some),
        status == 206 && r is Err ==> r->Err_0 is MalformedRange,
{
    let texts = fields@.map_values(|f: (String, Vec<u8>)| field_bytes(f));
    assert forall|k: int| 0 <= k < texts.len() implies #[trigger] texts[k] == field_bytes(
        fields@[k],
    ) by {}
    if has_malformed_range(texts) {
        let j = choose|j: int|
            0 <= j < texts.len() && (#[trigger] texts[j]).0 == "Content-Range"@ && content_range(
                texts[j].1,
            ) is None;
        assert(fields@[j].0@ == "Content-Range"@ && content_range(fields@[j].1@) is None);
    } else {
        assert forall|j: int| 0 <= j < fields@.len() implies (#[trigger] fields@[j]).0@
            != "Content-Range"@ || content_range(fields@[j].1@) is Some by {
            assert(texts[j] == field_bytes(fields@[j]));
        }
    }
}

/// A call of `Request::headers_received` on the head of a partial response without a
/// `Content-Range` field accepts it, and records nothing.
pub proof fn law_head_without_range(
    request: &mut Request,
    status: u16,
    fields: Vec<(String, Vec<u8>)>,
    r: Result<usize, HeadError>,
)
    requires
        call_ensures(Request::headers_received, (request, status, &fields), r),
        forall|j: int| 0 <= j < fields@.len() ==> (#[trigger] fields@[j]).0@ != "Content-Range"@,
    ensures
        final(request).range == old(request).range,
        r is Ok <==> status == 206,
{
    let texts = fields@.map_values(|f: (String, Vec<u8>)| field_bytes(f));
    assert forall|k: int| 0 <= k < texts.len() implies (#[trigger] texts[k]).0
        != "Content-Range"@ by {
        assert(fields@[k].0@ != "Content-Range"@);
    }
    law_malformed_heads(texts, -1);
}

/// A call of `Request::headers_received` that accepts a head with one `Content-Range` field
/// written for three numbers records these numbers.
pub proof fn law_head_records_numbers(
    request: &mut Request,
    status: u16,
    fields: Vec<(String, Vec<u8>)>,
    r: Result<usize, HeadError>,
    i: int,
    from: u64,
    to: u64,
    total: u64,
)
    requires
        call_ensures(Request::headers_received, (request, status, &fields), r),
        0 <= i < fields@.len(),
        fields@[i].0@ == "Content-Range"@,
        fields@[i].1@ == content_range_text(from, to, total),
        forall|j: int|
            0 <= j < fields@.len() && j != i ==> (#[trigger] fields@[j]).0@ != "Content-Range"@,
        to < u64::MAX,
        status == 206,
    ensures
        r is Ok,
        final(request).range == Some(Span { from, to, total }),
{
    law_content_range_round_trip(from, to, total);
    law_head_is_read(request, status, fields, r, i);
}

/// A call of `Request::headers_received` on a head of any other status refuses it, with a complaint
/// that shows that status, and leaves the request as it was.
pub proof fn law_other_status_is_refused(
    request: &mut Request,
    status: u16,
    fields: Vec<(String, Vec<u8>)>,
    r: Result<usize, HeadError>,
)
    requires
        call_ensures(Request::headers_received, (request, status, &fields), r),
        status != 206,
    ensures
        *final(request) == *old(request),
        r is Err,
        r->Err_0 is InvalidStatus,
        r->Err_0->InvalidStatus_0@.take(32) == "Server returned invalid status: "@,
        r->Err_0->InvalidStatus_0@.skip(32) == status_text(status),
{
    law_complaint(status_text(status));
}

} // verus!
