//! Moving items from a source to a sink, one at a time.
//!
//! Whoever holds the source and the sink asks [`Forwarder::step`] what to do, does it,
//! and reports what came of it. Unlike a plain copy loop this also lets the sink make
//! progress whenever the source has nothing to offer.

use vstd::prelude::*;

verus! {

/// What a [`Forwarder`] is waiting to hear of.
#[derive(Debug, Clone, Copy, PartialEq, Eq, Structural)]
pub enum Phase {
    /// The next wakeup.
    Asleep,
    /// The sink, to which the item left from an earlier wakeup was offered.
    Retrying,
    /// The source.
    Pulling,
    /// The sink, to which an item fresh from the source was offered.
    Pushing,
    /// The sink, which completes its work because the source has ended.
    Finishing,
    /// The sink, which gets on with its work because the source has nothing ready.
    Flushing,
}

/// What happened.
#[derive(Debug)]
pub enum Event<T> {
    /// There may be work.
    Wakeup,
    /// The sink took the item.
    Taken,
    /// The sink has no room, and gave the item back.
    Refused(T),
    /// The sink broke down.
    SinkFailed,
    /// The source gave an item.
    Item(T),
    /// The source has ended.
    Ended,
    /// The source has nothing ready.
    SourceEmpty,
    /// The source broke down.
    SourceFailed,
    /// The sink has completed its work.
    Completed,
    /// The sink has work left.
    Incomplete,
}

/// What to do.
#[derive(Debug)]
pub enum Action<T> {
    /// Offer the item to the sink.
    Offer(T),
    /// Ask the source for an item.
    Pull,
    /// Let the sink do its work.
    Complete,
    /// Report that everything is done.
    Done,
    /// Sleep until the next wakeup.
    Sleep,
    /// Report a failure.
    Fail(Failure),
}

/// What has failed.
#[derive(Debug, Clone, Copy, PartialEq, Eq, Structural)]
pub enum Failure {
    /// The sink, while it was offered an item left from an earlier wakeup.
    Sink,
    /// The source.
    Input,
    /// The sink, at any other time.
    Output,
}

/// Moves items from a source to a sink.
#[derive(Debug)]
pub struct Forwarder<T> {
    /// The item that the sink has refused.
    pub buffered: Option<T>,
    pub phase: Phase,
}

/// Whether an event can occur in a phase.
pub open spec fn expected<T>(phase: Phase, event: Event<T>) -> bool {
    match phase {
        Phase::Asleep => event is Wakeup,
        Phase::Retrying | Phase::Pushing => event is Taken || event is Refused
            || event is SinkFailed,
        Phase::Pulling => event is Item || event is Ended || event is SourceEmpty
            || event is SourceFailed,
        Phase::Finishing | Phase::Flushing => event is Completed || event is Incomplete
            || event is SinkFailed,
    }
}

impl<T> Forwarder<T> {
    /// Items are kept only between wakeups.
    pub open spec fn wf(self) -> bool {
        self.phase != Phase::Asleep ==> self.buffered is None
    }
}

/// The action that an event calls for.
pub open spec fn action<T>(before: Forwarder<T>, event: Event<T>) -> Action<T> {
    match event {
        Event::Wakeup => match before.buffered {
            Some(item) => Action::Offer(item),
            None => Action::Pull,
        },
        Event::Taken => Action::Pull,
        Event::Refused(_) => Action::Sleep,
        Event::Item(item) => Action::Offer(item),
        Event::Ended | Event::SourceEmpty => Action::Complete,
        Event::SourceFailed => Action::Fail(Failure::Input),
        Event::SinkFailed => Action::Fail(
            if before.phase == Phase::Retrying {
                Failure::Sink
            } else {
                Failure::Output
            },
        ),
        Event::Completed => if before.phase == Phase::Finishing {
            Action::Done
        } else {
            Action::Sleep
        },
        Event::Incomplete => Action::Sleep,
    }
}

/// The item that is kept after an event: one that the sink gave back.
pub open spec fn buffered_after<T>(event: Event<T>) -> Option<T> {
    match event {
        Event::Refused(item) => Some(item),
        _ => None,
    }
}

/// The phase after an event.
pub open spec fn phase_after<T>(before: Forwarder<T>, event: Event<T>) -> Phase {
    match event {
        Event::Wakeup => if before.buffered is Some {
            Phase::Retrying
        } else {
            Phase::Pulling
        },
        Event::Taken => Phase::Pulling,
        Event::Item(_) => Phase::Pushing,
        Event::Ended => Phase::Finishing,
        Event::SourceEmpty => Phase::Flushing,
        _ => Phase::Asleep,
    }
}

/// The forwarder after an event.
pub open spec fn after<T>(before: Forwarder<T>, event: Event<T>) -> Forwarder<T> {
    Forwarder { buffered: buffered_after(event), phase: phase_after(before, event) }
}

impl<T> Forwarder<T> {
    /// A forwarder that has moved nothing yet.
    pub fn new() -> (r: Forwarder<T>)
        ensures
            r.wf(),
            r.buffered is None,
            r.phase == Phase::Asleep,
    {
        Forwarder { buffered: None, phase: Phase::Asleep }
    }

    /// Takes note of what happened, and tells what to do.
    pub fn step(&mut self, event: Event<T>) -> (r: Action<T>)
        requires
            old(self).wf(),
            expected(old(self).phase, event),
        ensures
            final(self).wf(),
            *final(self) == after(*old(self), event),
            r == action(*old(self), event),
    {
        let phase = self.phase;
        match event {
            Event::Wakeup => match self.buffered.take() {
                Some(item) => {
                    self.phase = Phase::Retrying;
                    Action::Offer(item)
                },
                None => {
                    self.phase = Phase::Pulling;
                    Action::Pull
                },
            },
            Event::Taken => {
                self.phase = Phase::Pulling;
                Action::Pull
            },
            Event::Refused(item) => {
                self.buffered = Some(item);
                self.phase = Phase::Asleep;
                Action::Sleep
            },
            Event::SinkFailed => {
                self.phase = Phase::Asleep;
                if phase == Phase::Retrying {
                    Action::Fail(Failure::Sink)
                } else {
                    Action::Fail(Failure::Output)
                }
            },
            Event::Item(item) => {
                self.phase = Phase::Pushing;
                Action::Offer(item)
            },
            Event::Ended => {
                self.phase = Phase::Finishing;
                Action::Complete
            },
            Event::SourceEmpty => {
                self.phase = Phase::Flushing;
                Action::Complete
            },
            Event::SourceFailed => {
                self.phase = Phase::Asleep;
                Action::Fail(Failure::Input)
            },
            Event::Completed => {
                self.phase = Phase::Asleep;
                if phase == Phase::Finishing {
                    Action::Done
                } else {
                    Action::Sleep
                }
            },
            Event::Incomplete => {
                self.phase = Phase::Asleep;
                Action::Sleep
            },
        }
    }
}

/// The forwarder after some events.
pub open spec fn after_all<T>(events: Seq<Event<T>>) -> Forwarder<T>
    decreases events.len(),
{
    if events.len() == 0 {
        Forwarder { buffered: None, phase: Phase::Asleep }
    } else {
        after(after_all(events.drop_last()), events.last())
    }
}

/// The item on offer to the sink after some events.
pub open spec fn offered<T>(events: Seq<Event<T>>) -> Option<T> {
    if events.len() == 0 {
        None
    } else {
        match action(after_all(events.drop_last()), events.last()) {
            Action::Offer(item) => Some(item),
            _ => None,
        }
    }
}

/// The items that the source gave.
pub open spec fn pulled<T>(events: Seq<Event<T>>) -> Seq<T>
    decreases events.len(),
{
    if events.len() == 0 {
        Seq::empty()
    } else {
        match events.last() {
            Event::Item(item) => pulled(events.drop_last()).push(item),
            _ => pulled(events.drop_last()),
        }
    }
}

/// The items that the sink took.
pub open spec fn delivered<T>(events: Seq<Event<T>>) -> Seq<T>
    decreases events.len(),
{
    if events.len() == 0 {
        Seq::empty()
    } else {
        match (events.last(), offered(events.drop_last())) {
            (Event::Taken, Some(item)) => delivered(events.drop_last()).push(item),
            _ => delivered(events.drop_last()),
        }
    }
}

/// Whether every event can occur where it stands, and the sink gives back the item that it
/// was offered.
pub open spec fn legal<T>(events: Seq<Event<T>>) -> bool
    decreases events.len(),
{
    events.len() > 0 ==> {
        &&& legal(events.drop_last())
        &&& expected(after_all(events.drop_last()).phase, events.last())
        &&& events.last() matches Event::Refused(item) ==> offered(events.drop_last()) == Some(
            item,
        )
    }
}

/// Whether the sink never breaks down while it is offered an item.
pub open spec fn keeps_items<T>(events: Seq<Event<T>>) -> bool
    decreases events.len(),
{
    events.len() > 0 ==> {
        &&& keeps_items(events.drop_last())
        &&& !(events.last() is SinkFailed && offered(events.drop_last()) is Some)
    }
}

/// The items of an option: one or none.
pub open spec fn items<T>(item: Option<T>) -> Seq<T> {
    match item {
        Some(item) => seq![item],
        None => Seq::empty(),
    }
}

/// An item is on offer exactly while the sink is to answer for it, and none is kept at the
/// same time.
proof fn lemma_offered<T>(events: Seq<Event<T>>)
    requires
        legal(events),
    ensures
        after_all(events).wf(),
        offered(events) is Some <==> after_all(events).phase == Phase::Retrying || after_all(
            events,
        ).phase == Phase::Pushing,
    decreases events.len(),
{
    if events.len() > 0 {
        lemma_offered(events.drop_last());
    }
}

/// No item is lost, repeated or reordered: what the source gave is what the sink took,
/// then the item on offer, then the item kept for later.
///
/// A sink that breaks down while it is offered an item does not give it back, so such runs
/// are left out.
pub proof fn law_items_conserved<T>(events: Seq<Event<T>>)
    requires
        legal(events),
        keeps_items(events),
    ensures
        pulled(events) == delivered(events) + items(offered(events)) + items(
            after_all(events).buffered,
        ),
    decreases events.len(),
{
    if events.len() > 0 {
        let init = events.drop_last();
        law_items_conserved(init);
        lemma_offered(init);
        lemma_offered(events);
        let before = after_all(init);
        match events.last() {
            Event::Wakeup => {
                assert(pulled(events) =~= delivered(events) + items(offered(events)) + items(
                    after_all(events).buffered,
                ));
            },
            _ => {
                assert(before.buffered is None);
                assert(pulled(events) =~= delivered(events) + items(offered(events)) + items(
                    after_all(events).buffered,
                ));
            },
        }
    } else {
        assert(pulled(events) =~= delivered(events) + items(offered(events)) + items(
            after_all(events).buffered,
        ));
    }
}

/// Between wakeups, what the source gave is what the sink took, then the item kept for later.
pub proof fn law_items_conserved_asleep<T>(events: Seq<Event<T>>)
    requires
        legal(events),
        keeps_items(events),
        after_all(events).phase == Phase::Asleep,
    ensures
        pulled(events) == delivered(events) + items(after_all(events).buffered),
{
    lemma_offered(events);
    law_items_conserved(events);
    assert(delivered(events) + items(offered(events)) =~= delivered(events));
}

/// The source is asked only when every item it gave has been taken.
pub proof fn law_pulls_only_when_empty<T>(events: Seq<Event<T>>)
    requires
        legal(events),
        keeps_items(events),
        after_all(events).phase == Phase::Pulling,
    ensures
        pulled(events) == delivered(events),
{
    lemma_offered(events);
    law_items_conserved(events);
    assert(delivered(events) + items(offered(events)) + items(after_all(events).buffered)
        =~= delivered(events));
}

/// When everything is reported done, the source has ended and the sink has taken all that
/// it gave.
pub proof fn law_done_means_delivered<T>(events: Seq<Event<T>>)
    requires
        legal(events),
        keeps_items(events),
        events.len() > 0,
        action(after_all(events.drop_last()), events.last()) is Done,
    ensures
        events.len() >= 2,
        events[events.len() - 2] is Ended,
        pulled(events) == delivered(events),
{
    let init = events.drop_last();
    lemma_offered(events);
    law_items_conserved(events);
    assert(after_all(init).phase == Phase::Finishing);
    assert(init.len() > 0);
    assert(init.last() == events[events.len() - 2]);
    assert(delivered(events) + items(offered(events)) + items(after_all(events).buffered)
        =~= delivered(events));
}

/// The sink gets to work on every wakeup that does not leave it with an item refused or
/// end in a failure: before the forwarder sleeps, the last word is the sink's.
pub proof fn law_sink_works_before_sleep<T>(events: Seq<Event<T>>)
    requires
        legal(events),
        events.len() > 0,
        action(after_all(events.drop_last()), events.last()) is Sleep,
    ensures
        events.last() is Refused || events.last() is Completed || events.last() is Incomplete,
{
}

/// Whether the source, once it has ended, answers nothing else, as a fused stream does.
pub open spec fn stays_ended<T>(events: Seq<Event<T>>) -> bool {
    forall|i: int, j: int|
        0 <= i < j < events.len() && #[trigger] events[i] is Ended ==> !(#[trigger] events[j] is Item
            || events[j] is SourceEmpty || events[j] is SourceFailed)
}

/// The action that an event among some called for.
pub open spec fn action_at<T>(events: Seq<Event<T>>, at: int) -> Action<T> {
    action(after_all(events.take(at)), events[at])
}

/// Whether the forwarder is asleep before and after the events from some place on, and awake in
/// between: whether they are those of one wakeup.
pub open spec fn is_one_wakeup<T>(events: Seq<Event<T>>, from: int) -> bool {
    &&& 0 <= from < events.len()
    &&& after_all(events.take(from)).phase == Phase::Asleep
    &&& forall|i: int|
        from < i < events.len() ==> after_all(#[trigger] events.take(i)).phase != Phase::Asleep
    &&& after_all(events).phase == Phase::Asleep
}

/// Each event can occur where it stands, and leads from one state to the next.
proof fn lemma_at<T>(events: Seq<Event<T>>, at: int)
    requires
        legal(events),
        0 <= at < events.len(),
    ensures
        expected(after_all(events.take(at)).phase, events[at]),
        after_all(events.take(at + 1)) == after(after_all(events.take(at)), events[at]),
        events[at] !is Item ==> pulled(events.take(at + 1)) == pulled(events.take(at)),
        events[at] !is Taken ==> delivered(events.take(at + 1)) == delivered(events.take(at)),
    decreases events.len(),
{
    let init = events.drop_last();
    if at < init.len() {
        lemma_at(init, at);
        assert(init.take(at) =~= events.take(at));
        assert(init.take(at + 1) =~= events.take(at + 1));
    } else {
        assert(events.take(at) =~= init);
        assert(events.take(at + 1) =~= events);
    }
}

/// Woken after the source has ended while the sink had work left, the forwarder asks the source
/// once, which is still at its end, offers nothing, and lets the sink complete its work exactly
/// once. It is then done, asleep again or failed, as the sink answers.
pub proof fn law_completes_once_after_end<T>(events: Seq<Event<T>>, from: int)
    requires
        legal(events),
        stays_ended(events),
        is_one_wakeup(events, from),
        from >= 2,
        events[from - 2] is Ended,
        events[from - 1] is Incomplete,
    ensures
        events.len() == from + 3,
        action_at(events, from) is Pull,
        events[from + 1] is Ended,
        action_at(events, from + 1) is Complete,
        match events[from + 2] {
            Event::Completed => action_at(events, from + 2) is Done,
            Event::Incomplete => action_at(events, from + 2) is Sleep,
            Event::SinkFailed => action_at(events, from + 2) == Action::<T>::Fail(Failure::Output),
            _ => false,
        },
        after_all(events).buffered is None,
        pulled(events) == pulled(events.take(from)),
        delivered(events) == delivered(events.take(from)),
{
    assert(events.take(events.len() as int) =~= events);
    lemma_at(events, from - 1);
    lemma_at(events, from);
    assert(events.len() > from + 1);
    lemma_at(events, from + 1);
    assert(events[from + 1] is Ended);
    assert(events.len() > from + 2);
    lemma_at(events, from + 2);
    if events.len() > from + 3 {
        assert(after_all(events.take(from + 3)).phase == Phase::Asleep);
    }
}

/// What is done about an event is a matter of it and of what came before: an item is offered when
/// it comes, and again on the wakeup after it was refused. When an item is taken, and on a wakeup
/// without one, the source is asked. When the source has nothing, the sink is let to its work.
/// Everything is done when the sink has completed its work right after the source has ended.
/// A failure is told by who failed, and by whether it was over an item from an earlier wakeup.
pub proof fn law_what_is_done<T>(events: Seq<Event<T>>)
    requires
        legal(events),
        events.len() > 0,
    ensures
        ({
            let init = events.drop_last();
            let done = action(after_all(init), events.last());
            match events.last() {
                Event::Wakeup => if init.len() > 0 && init.last() is Refused {
                    done == Action::Offer(init.last()->Refused_0)
                } else {
                    done is Pull
                },
                Event::Taken => done is Pull,
                Event::Refused(_) => done is Sleep,
                Event::Item(item) => done == Action::Offer(item),
                Event::Ended => done is Complete,
                Event::SourceEmpty => done is Complete,
                Event::SourceFailed => done == Action::<T>::Fail(Failure::Input),
                Event::Completed => if init.last() is Ended {
                    done is Done
                } else {
                    done is Sleep
                },
                Event::Incomplete => done is Sleep,
                Event::SinkFailed => if init.last() is Wakeup {
                    done == Action::<T>::Fail(Failure::Sink)
                } else {
                    done == Action::<T>::Fail(Failure::Output)
                },
            }
        }),
{
    let init = events.drop_last();
    lemma_offered(init);
    if init.len() > 0 {
        assert(after_all(init) == after(after_all(init.drop_last()), init.last()));
    }
}

/// Whatever is done can be answered in every way that there is, and in no other: the sink takes an
/// offer, refuses it or fails, the source gives an item, has ended, has none or fails, and the
/// sink's work is complete, is not or fails. After that a wakeup is waited for.
pub proof fn law_every_answer_is_expected<T>(
    before: Forwarder<T>,
    event: Event<T>,
    answer: Event<T>,
)
    requires
        before.wf(),
        expected(before.phase, event),
    ensures
        after(before, event).wf(),
        expected(after(before, event).phase, answer) <==> match action(before, event) {
            Action::Offer(_) => answer is Taken || answer is Refused || answer is SinkFailed,
            Action::Pull => answer is Item || answer is Ended || answer is SourceEmpty || answer
                is SourceFailed,
            Action::Complete => answer is Completed || answer is Incomplete || answer
                is SinkFailed,
            Action::Done => answer is Wakeup,
            Action::Sleep => answer is Wakeup,
            Action::Fail(_) => answer is Wakeup,
        },
        expected(Phase::Asleep, answer) <==> answer is Wakeup,
{
}

/// Only an item that was refused is kept, until the next wakeup.
pub proof fn law_only_refused_items_are_kept<T>(events: Seq<Event<T>>)
    requires
        legal(events),
    ensures
        after_all(events).buffered == if events.len() > 0 && events.last() is Refused {
            Some(events.last()->Refused_0)
        } else {
            None
        },
{
}

/// What the source gave are its items in their order, and what the sink took are those of its
/// offers that it answered by taking them.
pub proof fn law_items_are_told_by_events<T>(events: Seq<Event<T>>, event: Event<T>)
    ensures
        pulled(Seq::<Event<T>>::empty()) == Seq::<T>::empty(),
        delivered(Seq::<Event<T>>::empty()) == Seq::<T>::empty(),
        pulled(events.push(event)) == match event {
            Event::Item(item) => pulled(events).push(item),
            _ => pulled(events),
        },
        event !is Taken ==> delivered(events.push(event)) == delivered(events),
        event is Taken && events.len() > 0 ==> (action(
            after_all(events.drop_last()),
            events.last(),
        ) matches Action::Offer(item) ==> delivered(events.push(event)) == delivered(events).push(
            item,
        )),
{
    assert(events.push(event).drop_last() =~= events);
}

/// A call of `Forwarder::new` gives a forwarder that waits for a wakeup and keeps nothing.
pub proof fn law_new_forwarder<T>(forwarder: Forwarder<T>)
    requires
        call_ensures(Forwarder::<T>::new, (), forwarder),
    ensures
        forwarder == after_all(Seq::<Event<T>>::empty()),
        forwarder.buffered is None,
        forwarder.phase == Phase::Asleep,
{
}

/// A call of `Forwarder::step` that comes after some events, for one more, does what the events
/// call for and is ready for the next one.
pub proof fn law_step_follows_events<T>(
    forwarder: &mut Forwarder<T>,
    event: Event<T>,
    r: Action<T>,
    events: Seq<Event<T>>,
)
    requires
        call_ensures(Forwarder::<T>::step, (forwarder, event), r),
        *old(forwarder) == after_all(events),
        legal(events.push(event)),
    ensures
        *final(forwarder) == after_all(events.push(event)),
        r == action_at(events.push(event), events.len() as int),
        event matches Event::Item(item) ==> r == Action::Offer(item),
        event is Taken ==> r is Pull,
        event is Wakeup && old(forwarder).buffered is None ==> r is Pull,
        event is Wakeup ==> (old(forwarder).buffered matches Some(item) ==> r == Action::Offer(
            item,
        )),
        event matches Event::Refused(item) ==> r is Sleep && final(forwarder).buffered == Some(
            item,
        ),
        event !is Refused ==> final(forwarder).buffered is None,
        event is Ended || event is SourceEmpty ==> r is Complete,
        event is Incomplete ==> r is Sleep,
        event is Completed ==> r is Done || r is Sleep,
        event is Completed ==> (r is Done <==> events.last() is Ended),
        event is SourceFailed ==> r == Action::<T>::Fail(Failure::Input),
        event is SinkFailed ==> r == Action::<T>::Fail(
            if events.last() is Wakeup {
                Failure::Sink
            } else {
                Failure::Output
            },
        ),
{
    let all = events.push(event);
    assert(all.drop_last() =~= events);
    assert(all.take(events.len() as int) =~= events);
    law_what_is_done(all);
}

} // verus!
