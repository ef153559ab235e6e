//! How far a file has been read, and what a response adds to it.

use std::sync::Arc;

use vstd::prelude::*;
#[allow(unused_imports)]
use vstd::string::StringSliceAdditionalSpecFns;

use crate::content_range::Span;
#[allow(unused_imports)]
use crate::decimal::ascii_bytes;
use crate::target::Url;

verus! {

/// The wait that one idle response adds, in nanoseconds.
pub const STEP: u64 = 100_000_000;

/// The number of idle responses after which the wait grows no more.
pub const MAX_STEPS: u32 = 70;

/// The longest wait, in nanoseconds.
pub const MAX_WAIT: u64 = 7_000_000_000;

/// The latest time, in nanoseconds, to which the longest wait can be added.
pub const LAST_TIME: u64 = 18_446_744_066_709_551_615;

/// What is known of a file after a response. Times are in nanoseconds, counted from any
/// fixed moment.
#[derive(Debug)]
pub struct State {
    /// Position after the last byte received.
    pub offset: u64,
    /// Number of responses since the end of the file was reached, the one that reached
    /// it included, as long as no new bytes came.
    pub eof: u32,
    /// The unfinished line at the end.
    pub last_line: Vec<u8>,
    /// Time of the last response.
    pub last_request: u64,
}

/// What a [`State`] says.
#[verifier::ext_equal]
pub struct Progress {
    pub offset: u64,
    pub eof: u32,
    pub last_line: Seq<u8>,
    pub last_request: u64,
}

/// A file that is followed. Nothing is known of it before the first response.
#[derive(Debug)]
pub struct Cursor {
    pub url: Arc<Url>,
    pub state: Option<State>,
}

impl View for State {
    type V = Progress;

    open spec fn view(&self) -> Progress {
        Progress {
            offset: self.offset,
            eof: self.eof,
            last_line: self.last_line@,
            last_request: self.last_request,
        }
    }
}

/// Whether a line break occurs in `s`.
pub open spec fn has_newline(s: Seq<u8>) -> bool {
    exists|i: int| 0 <= i < s.len() && #[trigger] s[i] == 0x0a
}

impl Progress {
    /// What every response leaves behind: at least one byte position has been passed, the
    /// unfinished line is within one line, and the longest wait can be added to the time.
    pub open spec fn wf(self) -> bool {
        &&& self.offset >= 1
        &&& !has_newline(self.last_line)
        &&& self.last_request <= LAST_TIME
    }

    /// The wait after the last response: a step for each idle one, up to a limit.
    pub open spec fn wait(self) -> int {
        STEP * if self.eof < MAX_STEPS {
            self.eof as int
        } else {
            MAX_STEPS as int
        }
    }

    /// The time after which the next request is due. Off the end of the file there is no
    /// wait.
    pub open spec fn next_request(self) -> Option<int> {
        if self.eof == 0 {
            None
        } else {
            Some(self.last_request + self.wait())
        }
    }
}

impl Cursor {
    /// What is known of the file.
    pub open spec fn progress(self) -> Option<Progress> {
        match self.state {
            Some(state) => Some(state@),
            None => None,
        }
    }

    /// Whether what is known is what responses leave behind.
    pub open spec fn wf(self) -> bool {
        self.progress() matches Some(progress) ==> progress.wf()
    }

    /// The time after which the next request is due, if there is any wait.
    pub open spec fn next_request(self) -> Option<int> {
        match self.progress() {
            Some(progress) => progress.next_request(),
            None => None,
        }
    }

    /// Whether a request is due at `now`.
    pub open spec fn due(self, now: u64) -> bool {
        match self.next_request() {
            Some(next) => next < now,
            None => true,
        }
    }
}

/// The length of the longest beginning of `s` that ends with a line break; zero if there
/// is no line break.
pub open spec fn lines_len(s: Seq<u8>) -> nat
    decreases s.len(),
{
    if s.len() == 0 {
        0
    } else if s.last() == 0x0a {
        s.len()
    } else {
        lines_len(s.drop_last())
    }
}

/// Whether a response does not start with the last byte that was received before.
pub open spec fn leaves_gap(before: Option<Progress>, span: Span) -> bool {
    before matches Some(progress) && progress.offset != span.from + 1
}

/// The bytes of a response that were not received before: a response that follows on
/// repeats one byte.
pub open spec fn fresh(before: Option<Progress>, span: Span, data: Seq<u8>) -> Seq<u8> {
    if before is Some && !leaves_gap(before, span) && data.len() > 0 {
        data.skip(1)
    } else {
        data
    }
}

/// The unfinished line that a response goes on with.
pub open spec fn carried(before: Option<Progress>, span: Span) -> Seq<u8> {
    match before {
        Some(progress) => if leaves_gap(before, span) {
            Seq::empty()
        } else {
            progress.last_line
        },
        None => Seq::empty(),
    }
}

/// What is printed in place of bytes that were not received.
pub open spec fn gap_notice() -> Seq<u8> {
    ascii_bytes("[.. skipped ..]\n"@)
}

/// What a response prints: a notice if bytes are missing, and its bytes up to the last
/// line break.
pub open spec fn printed(before: Option<Progress>, span: Span, data: Seq<u8>) -> Seq<u8> {
    let new = fresh(before, span, data);
    let notice = if leaves_gap(before, span) {
        gap_notice()
    } else {
        Seq::empty()
    };
    notice + new.take(lines_len(new) as int)
}

/// What is known after a response.
pub open spec fn received(
    before: Option<Progress>,
    span: Span,
    data: Seq<u8>,
    now: u64,
) -> Progress {
    let new = fresh(before, span, data);
    let idle = match before {
        Some(progress) => progress.eof,
        None => 0,
    };
    Progress {
        offset: (span.to + 1) as u64,
        eof: if span.to + 1 != span.total {
            0
        } else if new.len() > 0 {
            1
        } else if idle < u32::MAX {
            (idle + 1) as u32
        } else {
            u32::MAX
        },
        last_line: if lines_len(new) > 0 {
            new.skip(lines_len(new) as int)
        } else {
            carried(before, span) + new
        },
        last_request: now,
    }
}

/// What `lines_len` means: a line break stands right before that position, unless it is
/// zero, and none stands after it.
pub proof fn lemma_lines_len(s: Seq<u8>)
    ensures
        lines_len(s) <= s.len(),
        lines_len(s) > 0 ==> s[lines_len(s) - 1] == 0x0a,
        forall|i: int| lines_len(s) <= i < s.len() ==> s[i] != 0x0a,
        lines_len(s) > 0 <==> has_newline(s),
    decreases s.len(),
{
    if s.len() > 0 {
        if s.last() == 0x0a {
            assert(s[s.len() - 1] == 0x0a);
        } else {
            let init = s.drop_last();
            lemma_lines_len(init);
            assert forall|i: int| lines_len(s) <= i < s.len() implies s[i] != 0x0a by {
                if i < init.len() {
                    assert(init[i] == s[i]);
                }
            }
            if has_newline(s) {
                let i = choose|i: int| 0 <= i < s.len() && #[trigger] s[i] == 0x0a;
                assert(init[i] == 0x0a);
            }
            if has_newline(init) {
                let i = choose|i: int| 0 <= i < init.len() && #[trigger] init[i] == 0x0a;
                assert(s[i] == 0x0a);
            }
        }
    }
}

/// Finds the end of the last whole line.
fn find_lines_len(s: &[u8]) -> (r: usize)
    ensures
        r == lines_len(s@),
        r <= s@.len(),
{
    let mut end: usize = s.len();
    assert(s@.take(end as int) =~= s@);
    while end > 0
        invariant
            end <= s@.len(),
            lines_len(s@.take(end as int)) == lines_len(s@),
        decreases end,
    {
        let ghost head = s@.take(end as int);
        assert(head.last() == s@[end - 1]);
        if s[end - 1] == 0x0a {
            return end;
        }
        assert(head.drop_last() =~= s@.take(end - 1));
        end = end - 1;
    }
    end
}

/// Appends bytes to a buffer.
fn append_bytes(buffer: &mut Vec<u8>, bytes: &[u8])
    ensures
        final(buffer)@ == old(buffer)@ + bytes@,
{
    let ghost before = buffer@;
    buffer.extend_from_slice(bytes);
    assert(buffer@ =~= before + bytes@);
}

impl Cursor {
    /// A file of which nothing is known yet.
    pub fn new(url: Arc<Url>) -> (r: Cursor)
        ensures
            r.url == url,
            r.state is None,
    {
        Cursor { url, state: None }
    }

    /// Takes a response into account that arrived at `now`, and returns what to print.
    pub fn receive(&mut self, span: Span, data: &[u8], now: u64) -> (output: Vec<u8>)
        requires
            old(self).wf(),
            span.to < u64::MAX,
            now <= LAST_TIME,
        ensures
            final(self).url == old(self).url,
            final(self).wf(),
            final(self).progress() == Some(received(old(self).progress(), span, data@, now)),
            output@ == printed(old(self).progress(), span, data@),
            final(self).state matches Some(state) && state.offset == span.to + 1
                && state.last_request == now,
    {
        let ghost before = self.progress();
        let mut output: Vec<u8> = Vec::new();
        let mut eof: u32 = 0;
        let mut last_line: Vec<u8> = Vec::new();
        let mut start: usize = 0;
        match self.state.take() {
            Some(state) => {
                eof = state.eof;
                if span.from < u64::MAX && state.offset == span.from + 1 {
                    last_line = state.last_line;
                    if data.len() > 0 {
                        start = 1;
                    }
                } else {
                    let notice: &str = "[.. skipped ..]\n";
                    proof {
                        reveal_strlit("[.. skipped ..]\n");
                        assert(notice.is_ascii());
                        assert(notice.spec_bytes() =~= gap_notice());
                    }
                    append_bytes(&mut output, notice.as_bytes());
                }
            },
            None => {},
        }
        let new: &[u8] = vstd::slice::slice_subrange(data, start, data.len());
        assert(new@ =~= fresh(before, span, data@));
        let end: usize = find_lines_len(new);
        append_bytes(&mut output, vstd::slice::slice_subrange(new, 0, end));
        let rest: &[u8] = vstd::slice::slice_subrange(new, end, new.len());
        if end > 0 {
            last_line = Vec::new();
        }
        append_bytes(&mut last_line, rest);
        let eof: u32 = if span.to + 1 == span.total {
            if new.len() > 0 {
                1
            } else {
                eof.saturating_add(1)
            }
        } else {
            0
        };
        self.state = Some(State { offset: span.to + 1, eof, last_line, last_request: now });
        proof {
            lemma_lines_len(new@);
            assert(self.progress()->0 =~= received(before, span, data@, now));
            assert(output@ =~= printed(before, span, data@));
        }
        output
    }
}

/// Only whole lines are printed: the output of a response is empty or ends with a line
/// break.
pub proof fn law_prints_whole_lines(before: Option<Progress>, span: Span, data: Seq<u8>)
    ensures
        printed(before, span, data).len() > 0 ==> printed(before, span, data).last() == 0x0a,
{
    let new = fresh(before, span, data);
    lemma_lines_len(new);
    reveal_strlit("[.. skipped ..]\n");
}

/// Every response leaves behind what the next one needs.
pub proof fn law_received_is_wf(
    before: Option<Progress>,
    span: Span,
    data: Seq<u8>,
    now: u64,
)
    requires
        before matches Some(progress) ==> progress.wf(),
        span.to < u64::MAX,
        now <= LAST_TIME,
    ensures
        received(before, span, data, now).wf(),
{
    let new = fresh(before, span, data);
    lemma_lines_len(new);
    let line = received(before, span, data, now).last_line;
    let old_line = carried(before, span);
    assert forall|i: int| 0 <= i < line.len() implies #[trigger] line[i] != 0x0a by {
        if lines_len(new) > 0 {
            assert(line[i] == new[i + lines_len(new)]);
        } else if i < old_line.len() {
            assert(line[i] == old_line[i]);
        } else {
            assert(line[i] == new[i - old_line.len()]);
        }
    }
}

/// The new bytes of a response are printed or kept, in order and without loss: what it
/// prints, apart from a notice, and what it keeps are those bytes, or, if they hold no
/// line break, the unfinished line and those bytes.
pub proof fn law_new_bytes_printed_or_kept(
    before: Option<Progress>,
    span: Span,
    data: Seq<u8>,
    now: u64,
)
    ensures
        ({
            let new = fresh(before, span, data);
            let notice = if leaves_gap(before, span) {
                gap_notice()
            } else {
                Seq::empty()
            };
            let line = received(before, span, data, now).last_line;
            &&& has_newline(new) ==> printed(before, span, data) + line == notice + new
            &&& !has_newline(new) ==> printed(before, span, data) + line == notice + carried(
                before,
                span,
            ) + new
        }),
{
    let new = fresh(before, span, data);
    lemma_lines_len(new);
    let out = printed(before, span, data);
    let line = received(before, span, data, now).last_line;
    if has_newline(new) {
        assert(new.take(lines_len(new) as int) + new.skip(lines_len(new) as int) =~= new);
    }
    let notice = if leaves_gap(before, span) {
        gap_notice()
    } else {
        Seq::empty()
    };
    if has_newline(new) {
        assert(out + line =~= notice + new);
    } else {
        assert(out + line =~= notice + carried(before, span) + new);
    }
}

/// A response holds the bytes of `file` that its span says.
pub open spec fn serves(file: Seq<u8>, span: Span, data: Seq<u8>) -> bool {
    &&& span.from <= span.to < file.len()
    &&& data == file.subrange(span.from as int, span.to + 1)
}

/// A response that starts with the last byte received before, as asked for, loses no
/// byte of the file: everything from `start` on is printed or kept.
///
/// The unfinished line must be empty or go on without a line break in the response: a
/// response that finishes a line prints only its own bytes.
pub proof fn law_follows_file(
    file: Seq<u8>,
    start: int,
    output: Seq<u8>,
    before: Progress,
    span: Span,
    data: Seq<u8>,
    now: u64,
)
    requires
        before.wf(),
        0 <= start <= before.offset <= file.len(),
        output + before.last_line == file.subrange(start, before.offset as int),
        span.from + 1 == before.offset,
        span.to < u64::MAX,
        serves(file, span, data),
        before.last_line.len() == 0 || !has_newline(fresh(Some(before), span, data)),
    ensures
        ({
            let after = received(Some(before), span, data, now);
            &&& after.offset == span.to + 1
            &&& output + printed(Some(before), span, data) + after.last_line == file.subrange(
                start,
                after.offset as int,
            )
        }),
{
    let new = fresh(Some(before), span, data);
    let after = received(Some(before), span, data, now);
    assert(new =~= file.subrange(before.offset as int, span.to + 1));
    law_new_bytes_printed_or_kept(Some(before), span, data, now);
    let out = printed(Some(before), span, data);
    assert(out + after.last_line =~= before.last_line + new);
    assert(output + out + after.last_line =~= output + (out + after.last_line));
    assert(output + (before.last_line + new) =~= (output + before.last_line) + new);
    assert(file.subrange(start, before.offset as int) + file.subrange(
        before.offset as int,
        span.to + 1,
    ) =~= file.subrange(start, span.to + 1));
}

/// The first response prints or keeps all its bytes.
pub proof fn law_first_response(file: Seq<u8>, span: Span, data: Seq<u8>, now: u64)
    requires
        span.to < u64::MAX,
        serves(file, span, data),
    ensures
        ({
            let after = received(None, span, data, now);
            &&& after.offset == span.to + 1
            &&& printed(None, span, data) + after.last_line == file.subrange(
                span.from as int,
                after.offset as int,
            )
        }),
{
    law_new_bytes_printed_or_kept(None, span, data, now);
    assert(Seq::<u8>::empty() + data =~= data);
    assert(Seq::<u8>::empty() + Seq::<u8>::empty() + data =~= data);
}

/// A response as the laws speak of it.
pub struct Response {
    pub span: Span,
    pub data: Seq<u8>,
    pub now: u64,
}

/// What is known of a file after some responses.
pub open spec fn progress_after(responses: Seq<Response>) -> Option<Progress>
    decreases responses.len(),
{
    if responses.len() == 0 {
        None
    } else {
        let last = responses.last();
        Some(received(progress_after(responses.drop_last()), last.span, last.data, last.now))
    }
}

/// What some responses have printed in all.
pub open spec fn printed_by(responses: Seq<Response>) -> Seq<u8>
    decreases responses.len(),
{
    if responses.len() == 0 {
        Seq::empty()
    } else {
        let last = responses.last();
        printed_by(responses.drop_last()) + printed(
            progress_after(responses.drop_last()),
            last.span,
            last.data,
        )
    }
}

/// Whether the responses hold bytes of `file`, each but the first one starts with the last
/// byte of the one before, and none of them finishes a line that was kept unfinished.
pub open spec fn gapless(file: Seq<u8>, responses: Seq<Response>) -> bool
    decreases responses.len(),
{
    responses.len() > 0 ==> {
        let before = progress_after(responses.drop_last());
        let last = responses.last();
        &&& gapless(file, responses.drop_last())
        &&& last.span.to < u64::MAX
        &&& last.now <= LAST_TIME
        &&& serves(file, last.span, last.data)
        &&& !leaves_gap(before, last.span)
        &&& before matches Some(progress) ==> progress.last_line.len() == 0 || !has_newline(
            fresh(before, last.span, last.data),
        )
    }
}

/// Nothing of the file is lost, repeated or reordered over any number of responses that
/// follow on one another: all that was printed, with the unfinished line after it, is the
/// file from the first byte received to the last.
///
/// A response that finishes a kept line is left out: it prints only its own bytes.
pub proof fn law_stream_is_file(file: Seq<u8>, responses: Seq<Response>)
    requires
        responses.len() > 0,
        gapless(file, responses),
    ensures
        ({
            let after = progress_after(responses)->0;
            &&& after.wf()
            &&& responses[0].span.from <= after.offset <= file.len()
            &&& printed_by(responses) + after.last_line == file.subrange(
                responses[0].span.from as int,
                after.offset as int,
            )
        }),
    decreases responses.len(),
{
    let last = responses.last();
    let init = responses.drop_last();
    if init.len() == 0 {
        law_first_response(file, last.span, last.data, last.now);
        law_received_is_wf(None, last.span, last.data, last.now);
        assert(printed_by(init) =~= Seq::empty());
        assert(printed_by(responses) =~= printed(None, last.span, last.data));
    } else {
        law_stream_is_file(file, init);
        let before = progress_after(init)->0;
        law_received_is_wf(Some(before), last.span, last.data, last.now);
        law_follows_file(
            file,
            init[0].span.from as int,
            printed_by(init),
            before,
            last.span,
            last.data,
            last.now,
        );
    }
}

/// No wait is longer than the limit.
pub proof fn law_wait_is_bounded(progress: Progress)
    ensures
        0 <= progress.wait() <= MAX_WAIT,
        progress.next_request() matches Some(next) ==> progress.last_request <= next
            <= progress.last_request + MAX_WAIT,
{
}

/// While nothing new comes at the end of the file, the wait does not shrink, and it grows
/// by a step until it has reached the limit.
pub proof fn law_idle_wait_grows(before: Progress, span: Span, data: Seq<u8>, now: u64)
    requires
        before.eof > 0,
        span.to + 1 == span.total,
        fresh(Some(before), span, data).len() == 0,
    ensures
        ({
            let after = received(Some(before), span, data, now);
            &&& after.eof > 0
            &&& after.wait() == if before.eof < MAX_STEPS {
                before.wait() + STEP
            } else {
                before.wait()
            }
        }),
{
}

/// New bytes reset the wait: to one step at the end of the file, and to none before it.
pub proof fn law_new_bytes_reset_wait(
    before: Option<Progress>,
    span: Span,
    data: Seq<u8>,
    now: u64,
)
    requires
        fresh(before, span, data).len() > 0,
    ensures
        ({
            let after = received(before, span, data, now);
            &&& span.to + 1 == span.total ==> after.wait() == STEP && after.eof == 1
            &&& span.to + 1 != span.total ==> after.next_request() is None
        }),
{
}

/// What is known of a file is what its state holds.
pub proof fn law_progress_is_state(file: Cursor)
    ensures
        file.progress() is Some <==> file.state is Some,
        file.state matches Some(state) ==> {
            let progress = file.progress()->0;
            &&& progress.offset == state.offset
            &&& progress.eof == state.eof
            &&& progress.last_line == state.last_line@
            &&& progress.last_request == state.last_request
        },
{
}

/// After every response the file is known up to the last byte of the response, whatever was
/// known before and whatever the body holds.
pub proof fn law_known_up_to_response(
    before: Option<Progress>,
    span: Span,
    data: Seq<u8>,
    now: u64,
)
    requires
        span.to < u64::MAX,
    ensures
        received(before, span, data, now).offset == span.to + 1,
{
}

/// The wait counts from the response that came last: at the end of the file the next request is
/// due a tenth of a second later for each idle response, the last one included, and seven
/// seconds later at most. Before the end there is no wait.
pub proof fn law_wait_counts_from_response(
    before: Option<Progress>,
    span: Span,
    data: Seq<u8>,
    now: u64,
)
    ensures
        ({
            let after = received(before, span, data, now);
            &&& after.last_request == now
            &&& span.to + 1 != span.total ==> after.eof == 0 && after.next_request() is None
            &&& span.to + 1 == span.total ==> after.eof > 0 && after.next_request() == Some(
                now + 100_000_000 * if after.eof < 70 {
                    after.eof as int
                } else {
                    70
                },
            )
        }),
{
}

/// At the end of the file a response counts as idle if nothing in it is new: if it has no byte,
/// or no other than the last one received before. An idle one adds one to the count, as far as
/// it goes, and any other one starts the count anew.
pub proof fn law_idle_responses_are_counted(
    before: Option<Progress>,
    span: Span,
    data: Seq<u8>,
    now: u64,
)
    requires
        span.to + 1 == span.total,
    ensures
        ({
            let after = received(before, span, data, now).eof;
            match before {
                Some(progress) => if data.len() == 0 || (progress.offset == span.from + 1
                    && data.len() == 1) {
                    progress.eof < 0xffff_ffff ==> after == progress.eof + 1
                } else {
                    after == 1
                },
                None => after == 1,
            }
        }),
        before matches Some(progress) ==> progress.eof == 0xffff_ffff && data.len() == 0
            ==> received(before, span, data, now).eof == 0xffff_ffff,
        before matches Some(progress) ==> progress.eof == 0xffff_ffff && progress.offset
            == span.from + 1 && data.len() == 1 ==> received(before, span, data, now).eof
            == 0xffff_ffff,
{
}

/// A request is due if nothing is known of the file, if its end has not been reached, or if more
/// time has gone by since the last response than a tenth of a second for each idle one, up to
/// seven seconds.
pub proof fn law_due(file: Cursor, now: u64)
    ensures
        file.due(now) <==> match file.state {
            Some(state) => state.eof == 0 || state.last_request + 100_000_000 * (if state.eof < 70 {
                state.eof as int
            } else {
                70
            }) < now,
            None => true,
        },
        !file.due(now) ==> file.next_request() == Some(
            file.state->0.last_request + 100_000_000 * if file.state->0.eof < 70 {
                file.state->0.eof as int
            } else {
                70
            },
        ),
{
}

/// Any time to which seven seconds can be added is good enough.
pub proof fn law_times(now: u64)
    ensures
        now <= LAST_TIME <==> now + 7_000_000_000 <= u64::MAX,
        MAX_WAIT == 7_000_000_000,
{
}

/// Where the whole lines of a text end is where a line break stands with none behind.
proof fn lemma_split_lines(lines: Seq<u8>, rest: Seq<u8>)
    requires
        lines.len() > 0 ==> lines.last() == 0x0a,
        forall|i: int| 0 <= i < rest.len() ==> #[trigger] rest[i] != 0x0a,
    ensures
        lines_len(lines + rest) == lines.len(),
        (lines + rest).take(lines.len() as int) == lines,
        (lines + rest).skip(lines.len() as int) == rest,
{
    let all = lines + rest;
    let len = lines_len(all) as int;
    lemma_lines_len(all);
    if len < lines.len() {
        assert(all[lines.len() - 1] == 0x0a);
    }
    if len > lines.len() {
        assert(all[len - 1] == rest[len - 1 - lines.len()]);
    }
    assert(all.take(lines.len() as int) =~= lines);
    assert(all.skip(lines.len() as int) =~= rest);
}

/// The first response prints its whole lines, as they are, and keeps the rest.
pub proof fn law_first_response_prints_lines(
    span: Span,
    lines: Seq<u8>,
    rest: Seq<u8>,
    now: u64,
)
    requires
        lines.len() > 0 ==> lines.last() == 0x0a,
        forall|i: int| 0 <= i < rest.len() ==> #[trigger] rest[i] != 0x0a,
    ensures
        printed(None, span, lines + rest) == lines,
        received(None, span, lines + rest, now).last_line == rest,
{
    lemma_split_lines(lines, rest);
    assert(printed(None, span, lines + rest) =~= lines);
    assert(received(None, span, lines + rest, now).last_line =~= rest);
}

/// A response that starts with the last byte received before prints its whole lines without
/// that byte, and nothing else. What is behind them is kept, and added to what was kept before
/// if there is no line.
pub proof fn law_following_response_prints_lines(
    before: Progress,
    span: Span,
    repeated: u8,
    lines: Seq<u8>,
    rest: Seq<u8>,
    now: u64,
)
    requires
        before.offset == span.from + 1,
        lines.len() > 0 ==> lines.last() == 0x0a,
        forall|i: int| 0 <= i < rest.len() ==> #[trigger] rest[i] != 0x0a,
    ensures
        printed(Some(before), span, seq![repeated] + lines + rest) == lines,
        received(Some(before), span, seq![repeated] + lines + rest, now).last_line
            == if lines.len() > 0 {
            rest
        } else {
            before.last_line + rest
        },
        printed(Some(before), span, Seq::empty()) == Seq::<u8>::empty(),
        received(Some(before), span, Seq::empty(), now).last_line == before.last_line,
{
    let data = seq![repeated] + lines + rest;
    lemma_split_lines(lines, rest);
    assert(data.skip(1) =~= lines + rest);
    assert(printed(Some(before), span, data) =~= lines);
    assert(lines.len() == 0 ==> lines + rest =~= rest);
    let none = Seq::<u8>::empty();
    assert(printed(Some(before), span, none) =~= none);
    assert(before.last_line + none =~= before.last_line);
}

/// A response that starts anywhere else prints a notice and all its whole lines. What is behind
/// them is kept, and what was kept before is dropped.
pub proof fn law_gap_response_prints_lines(
    before: Progress,
    span: Span,
    lines: Seq<u8>,
    rest: Seq<u8>,
    now: u64,
)
    requires
        before.offset != span.from + 1,
        lines.len() > 0 ==> lines.last() == 0x0a,
        forall|i: int| 0 <= i < rest.len() ==> #[trigger] rest[i] != 0x0a,
    ensures
        printed(Some(before), span, lines + rest) == Seq::new(
            16,
            |i: int| "[.. skipped ..]\n"@[i] as u8,
        ) + lines,
        received(Some(before), span, lines + rest, now).last_line == rest,
{
    lemma_split_lines(lines, rest);
    reveal_strlit("[.. skipped ..]\n");
    assert(gap_notice() =~= Seq::new(16, |i: int| "[.. skipped ..]\n"@[i] as u8));
    assert(received(Some(before), span, lines + rest, now).last_line =~= rest);
}

/// A call of `Cursor::receive` leaves the file known up to the end of the response and timed by
/// it, and counts it as idle or not. It stays a file of the same URL.
pub proof fn law_receive_moves_on(
    file: &mut Cursor,
    span: Span,
    data: &[u8],
    now: u64,
    output: Vec<u8>,
)
    requires
        call_ensures(Cursor::receive, (file, span, data, now), output),
    ensures
        final(file).url == old(file).url,
        final(file).state is Some,
        final(file).state->0.offset == span.to + 1,
        final(file).state->0.last_request == now,
        final(file).state->0.eof == 0 <==> span.to + 1 != span.total,
        span.to + 1 == span.total && data@.len() > 1 ==> final(file).state->0.eof == 1,
        span.to + 1 == span.total && old(file).state is None ==> final(file).state->0.eof == 1,
        span.to + 1 == span.total && old(file).state is Some && data@.len() <= 1 ==> {
            let before = old(file).state->0;
            final(file).state->0.eof == if data@.len() == 1 && before.offset != span.from + 1 {
                1
            } else if before.eof < 0xffff_ffff {
                before.eof + 1
            } else {
                0xffff_ffff
            }
        },
{
    if span.to + 1 == span.total {
        law_idle_responses_are_counted(old(file).progress(), span, data@, now);
    }
    law_wait_counts_from_response(old(file).progress(), span, data@, now);
}

/// A call of `Cursor::receive` prints the whole lines of the response, without the byte that it
/// repeats, behind a notice if it does not start with that byte. What is behind the lines is
/// kept, with what was kept before if the response goes on with it.
pub proof fn law_receive_prints_lines(
    file: &mut Cursor,
    span: Span,
    data: &[u8],
    now: u64,
    output: Vec<u8>,
    lines: Seq<u8>,
    rest: Seq<u8>,
)
    requires
        call_ensures(Cursor::receive, (file, span, data, now), output),
        lines.len() > 0 ==> lines.last() == 0x0a,
        forall|i: int| 0 <= i < rest.len() ==> #[trigger] rest[i] != 0x0a,
    ensures
        old(file).state is None && data@ == lines + rest ==> output@ == lines && final(file).state->0.last_line@ == rest,
        old(file).state is Some && old(file).state->0.offset == span.from + 1 && data@.len() > 0
            && data@ == seq![data@[0]] + lines + rest ==> output@ == lines && final(file).state->0.last_line@ == if lines.len() > 0 {
            rest
        } else {
            old(file).state->0.last_line@ + rest
        },
        old(file).state is Some && old(file).state->0.offset == span.from + 1 && data@.len() == 0
            ==> output@.len() == 0 && final(file).state->0.last_line@ == old(file).state->0.last_line@,
        old(file).state is Some && old(file).state->0.offset != span.from + 1 && data@ == lines
            + rest ==> output@ == Seq::new(16, |i: int| "[.. skipped ..]\n"@[i] as u8) + lines
            && final(file).state->0.last_line@ == rest,
{
    if data@ == lines + rest {
        law_first_response_prints_lines(span, lines, rest, now);
    }
    match old(file).progress() {
        Some(before) => {
            if before.offset == span.from + 1 {
                law_following_response_prints_lines(
                    before,
                    span,
                    if data@.len() > 0 {
                        data@[0]
                    } else {
                        0
                    },
                    lines,
                    rest,
                    now,
                );
                assert(data@.len() == 0 ==> data@ =~= Seq::empty());
            } else {
                law_gap_response_prints_lines(before, span, lines, rest, now);
            }
        },
        None => {},
    }
}

/// A call of `Cursor::new` makes a file of the URL of which nothing is known.
pub proof fn law_new_cursor(url: Arc<Url>, file: Cursor)
    requires
        call_ensures(Cursor::new, (url,), file),
    ensures
        file.url == url,
        file.state is None,
        file.wf(),
{
}

} // verus!
