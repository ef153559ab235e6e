use std::collections::VecDeque;

use http_follow::forwarder::{Action, Event, Failure, Forwarder, Phase};

/// A sink with room for some items, which frees its room when it completes its work.
struct Sink {
    room: usize,
    used: usize,
    taken: Vec<u32>,
}

impl Sink {
    fn offer(&mut self, item: u32) -> Event<u32> {
        if self.used == self.room {
            return Event::Refused(item);
        }
        self.used += 1;
        self.taken.push(item);
        Event::Taken
    }
}

/// Wakes the forwarder once. `None` in the source stands for a pause.
fn wake(
    forwarder: &mut Forwarder<u32>,
    source: &mut VecDeque<Option<u32>>,
    sink: &mut Sink,
) -> bool {
    let mut event = Event::Wakeup;
    loop {
        event = match forwarder.step(event) {
            Action::Offer(item) => sink.offer(item),
            Action::Pull => match source.pop_front() {
                Some(Some(item)) => Event::Item(item),
                Some(None) => Event::SourceEmpty,
                None => Event::Ended,
            },
            Action::Complete => {
                sink.used = 0;
                Event::Completed
            }
            Action::Done => return true,
            Action::Sleep => return false,
            Action::Fail(_) => panic!("failed"),
        };
    }
}

#[test]
fn all_items_arrive_in_order() {
    let mut forwarder = Forwarder::new();
    let mut source: VecDeque<Option<u32>> = (0..20).map(Some).collect();
    source.insert(3, None);
    source.insert(9, None);
    let mut sink = Sink { room: 4, used: 0, taken: Vec::new() };
    let mut wakeups = 0;
    while !wake(&mut forwarder, &mut source, &mut sink) {
        sink.used = 0;
        wakeups += 1;
        assert!(wakeups < 100);
    }
    assert_eq!(sink.taken, (0..20).collect::<Vec<u32>>());
    assert!(forwarder.buffered.is_none());
}

#[test]
fn refused_item_is_offered_again() {
    let mut forwarder = Forwarder::new();
    assert!(matches!(forwarder.step(Event::Wakeup), Action::Pull));
    assert!(matches!(forwarder.step(Event::Item(7)), Action::Offer(7)));
    assert!(matches!(forwarder.step(Event::Refused(7)), Action::Sleep));
    assert_eq!(forwarder.buffered, Some(7));
    assert!(matches!(forwarder.step(Event::Wakeup), Action::Offer(7)));
    assert_eq!(forwarder.buffered, None);
    assert!(matches!(forwarder.step(Event::Refused(7)), Action::Sleep));
    assert!(matches!(forwarder.step(Event::Wakeup), Action::Offer(7)));
    assert!(matches!(forwarder.step(Event::Taken), Action::Pull));
}

#[test]
fn sink_works_while_the_source_is_empty() {
    let mut forwarder: Forwarder<u32> = Forwarder::new();
    assert!(matches!(forwarder.step(Event::Wakeup), Action::Pull));
    assert!(matches!(forwarder.step(Event::SourceEmpty), Action::Complete));
    assert!(matches!(forwarder.step(Event::Completed), Action::Sleep));
    assert_eq!(forwarder.phase, Phase::Asleep);
    assert!(matches!(forwarder.step(Event::Wakeup), Action::Pull));
    assert!(matches!(forwarder.step(Event::SourceEmpty), Action::Complete));
    assert!(matches!(forwarder.step(Event::Incomplete), Action::Sleep));
}

#[test]
fn end_waits_for_the_sink() {
    let mut forwarder: Forwarder<u32> = Forwarder::new();
    forwarder.step(Event::Wakeup);
    assert!(matches!(forwarder.step(Event::Ended), Action::Complete));
    assert!(matches!(forwarder.step(Event::Incomplete), Action::Sleep));
    forwarder.step(Event::Wakeup);
    assert!(matches!(forwarder.step(Event::Ended), Action::Complete));
    assert!(matches!(forwarder.step(Event::Completed), Action::Done));
}

#[test]
fn failures() {
    let mut forwarder = Forwarder::new();
    forwarder.step(Event::Wakeup);
    assert!(matches!(forwarder.step(Event::SourceFailed), Action::Fail(Failure::Input)));
    forwarder.step(Event::Wakeup);
    forwarder.step(Event::Item(1));
    assert!(matches!(forwarder.step(Event::SinkFailed), Action::Fail(Failure::Output)));
    forwarder.step(Event::Wakeup);
    forwarder.step(Event::Item(1));
    forwarder.step(Event::Refused(1));
    forwarder.step(Event::Wakeup);
    assert!(matches!(forwarder.step(Event::SinkFailed), Action::Fail(Failure::Sink)));
    forwarder.step(Event::Wakeup);
    forwarder.step(Event::SourceEmpty);
    assert!(matches!(forwarder.step(Event::SinkFailed), Action::Fail(Failure::Output)));
    forwarder.step(Event::Wakeup);
    forwarder.step(Event::Ended);
    assert!(matches!(forwarder.step(Event::SinkFailed), Action::Fail(Failure::Output)));
}

/// What a forwarder does that is woken after the end, when the sink answers with an event.
fn woken_after_the_end(answer: Event<u32>) -> (Action<u32>, Action<u32>, Action<u32>) {
    let mut forwarder: Forwarder<u32> = Forwarder::new();
    forwarder.step(Event::Wakeup);
    forwarder.step(Event::Ended);
    assert!(matches!(forwarder.step(Event::Incomplete), Action::Sleep));
    let asked = forwarder.step(Event::Wakeup);
    let completed = forwarder.step(Event::Ended);
    let ended = forwarder.step(answer);
    assert_eq!(forwarder.phase, Phase::Asleep);
    assert_eq!(forwarder.buffered, None);
    (asked, completed, ended)
}

#[test]
fn after_the_end_the_sink_completes_once() {
    assert!(matches!(
        woken_after_the_end(Event::Completed),
        (Action::Pull, Action::Complete, Action::Done)
    ));
    assert!(matches!(
        woken_after_the_end(Event::Incomplete),
        (Action::Pull, Action::Complete, Action::Sleep)
    ));
    assert!(matches!(
        woken_after_the_end(Event::SinkFailed),
        (Action::Pull, Action::Complete, Action::Fail(Failure::Output))
    ));
}
