use std::collections::VecDeque;
use vstd::prelude::*;

/// Events not tied to any user.
pub mod general;

/// Events tied to some user.
pub mod user;

use crate::user::User;

verus! {

/// A point in time: whole seconds since the UNIX epoch (UTC) and nanoseconds within that second.
#[derive(Debug, PartialEq, Eq, Clone, Copy)]
pub struct Timestamp {
    /// Seconds since 1970-01-01T00:00:00Z.
    pub secs: i64,
    /// Nanoseconds within the second.
    pub nanos: u32,
}

/// Whether a timestamp is one the system clock can give: not before the
/// epoch, and fewer nanoseconds than make a second.
pub open spec fn clock_time(t: Timestamp) -> bool {
    t.secs >= 0 && t.nanos < 1_000_000_000
}

/// The current time, read from the system clock through `chrono::Utc::now`,
/// which takes the clock's distance from the epoch (it panics for a clock set
/// before 1970). Which time it is depends on the clock and is not stated; only
/// that it is a [`clock_time`].
#[verifier::external_body]
pub(crate) fn now() -> (t: Timestamp)
    ensures
        clock_time(t),
{
    let t = chrono::Utc::now();
    Timestamp { secs: t.timestamp(), nanos: t.timestamp_subsec_nanos() }
}

/// Any event.
#[derive(Debug)]
pub enum Event {
    /// An event tied to a user.
    User(user::UserEvent),
    /// An event not tied to a user.
    General(general::Event),
}

/// The mathematical value of an [`Event`].
pub enum EventView {
    /// Tied to a user.
    User(user::UserEventView),
    /// Not tied to a user.
    General(general::EventView),
}

impl View for Event {
    type V = EventView;

    open spec fn view(&self) -> EventView {
        match self {
            Event::User(e) => EventView::User(e@),
            Event::General(e) => EventView::General(e@),
        }
    }
}

/// How an event is shown to people.
pub open spec fn display_any_event(e: EventView) -> Seq<char> {
    match e {
        EventView::User(u) => user::display_user_event(u),
        EventView::General(g) => general::display_general_event(g),
    }
}

impl Event {
    /// As shown to people.
    pub fn display(&self) -> (s: String)
        ensures
            s@ == display_any_event(self@),
    {
        match self {
            Event::User(e) => e.display(),
            Event::General(e) => e.display(),
        }
    }

    /// A copy.
    pub fn duplicate(&self) -> (e: Self)
        ensures
            e@ == self@,
    {
        match self {
            Event::User(e) => Event::User(e.duplicate()),
            Event::General(e) => Event::General(e.duplicate()),
        }
    }
}

/// An event and when it happened.
#[derive(Debug)]
pub struct TimestampedEvent {
    /// The event.
    pub inner: Event,
    /// When the event happened.
    pub timestamp: Timestamp,
}

/// The mathematical value of a [`TimestampedEvent`].
pub struct TimestampedEventView {
    /// The event.
    pub inner: EventView,
    /// When.
    pub timestamp: Timestamp,
}

impl View for TimestampedEvent {
    type V = TimestampedEventView;

    open spec fn view(&self) -> TimestampedEventView {
        TimestampedEventView { inner: self.inner@, timestamp: self.timestamp }
    }
}

impl TimestampedEvent {
    /// A user event, stamped with the current time.
    pub fn new_user_event(user: &User, event: user::Event) -> (e: Self)
        ensures
            e@.inner == EventView::User(user::UserEventView { user: user@, event: event@ }),
            clock_time(e@.timestamp),
    {
        TimestampedEvent {
            inner: Event::User(user::UserEvent { user: user.duplicate(), event }),
            timestamp: now(),
        }
    }

    /// As shown to people: the event, without its time.
    pub fn display(&self) -> (s: String)
        ensures
            s@ == display_any_event(self@.inner),
    {
        self.inner.display()
    }

    /// A copy.
    pub fn duplicate(&self) -> (e: Self)
        ensures
            e@ == self@,
    {
        TimestampedEvent { inner: self.inner.duplicate(), timestamp: self.timestamp }
    }
}

/// The views of logged events.
pub open spec fn event_views(v: Seq<TimestampedEvent>) -> Seq<TimestampedEventView> {
    v.map_values(|e: TimestampedEvent| e@)
}

/// The log after recording `e`: newest first, at most `size` events kept.
pub open spec fn log_after(log: Seq<TimestampedEventView>, e: TimestampedEventView, size: nat) -> Seq<TimestampedEventView> {
    let pushed = seq![e] + log;
    if pushed.len() <= size { pushed } else { pushed.subrange(0, size as int) }
}

/// The log after recording each of `es` in turn.
pub open spec fn log_after_all(log: Seq<TimestampedEventView>, es: Seq<TimestampedEventView>, size: nat) -> Seq<TimestampedEventView>
    decreases es.len(),
{
    if es.len() == 0 {
        log
    } else {
        log_after(log_after_all(log, es.drop_last(), size), es.last(), size)
    }
}

/// Events, the last first.
pub open spec fn newest_first(es: Seq<TimestampedEventView>) -> Seq<TimestampedEventView> {
    Seq::new(es.len(), |i: int| es[es.len() - 1 - i])
}

/// The smaller of two counts.
pub open spec fn min_nat(a: nat, b: nat) -> nat {
    if a <= b { a } else { b }
}

/// Recording events one after another keeps the most recent of them, newest
/// first, ahead of what was logged before, and no more than the capacity.
pub proof fn law_log_keeps_the_latest(log: Seq<TimestampedEventView>, es: Seq<TimestampedEventView>, size: nat)
    requires
        log.len() <= size,
    ensures
        log_after_all(log, es, size) == (newest_first(es) + log).subrange(0, min_nat(es.len() + log.len(), size) as int),
    decreases es.len(),
{
    if es.len() == 0 {
        assert(newest_first(es) + log =~= log);
        assert(log.subrange(0, log.len() as int) =~= log);
    } else {
        let prev = es.drop_last();
        law_log_keeps_the_latest(log, prev, size);
        let whole = newest_first(prev) + log;
        let m = min_nat(prev.len() + log.len(), size);
        let x = whole.subrange(0, m as int);
        assert(newest_first(es) + log =~= seq![es.last()] + whole);
        let pushed = seq![es.last()] + x;
        if pushed.len() <= size {
            assert(m == prev.len() + log.len());
            assert(x =~= whole);
            assert((seq![es.last()] + whole).subrange(0, min_nat(es.len() + log.len(), size) as int) =~= pushed);
        } else {
            assert(m == size);
            assert(pushed.subrange(0, size as int) =~= (seq![es.last()] + whole).subrange(0, size as int));
        }
    }
}

/// From an empty log, recording any number of events keeps the most recent
/// ones, newest first, as many as the capacity allows.
pub proof fn law_log_of_a_fresh_log(es: Seq<TimestampedEventView>, size: nat)
    ensures
        log_after_all(Seq::empty(), es, size) == newest_first(es).subrange(0, min_nat(es.len(), size) as int),
        log_after_all(Seq::empty(), es, size).len() == min_nat(es.len(), size),
{
    law_log_keeps_the_latest(Seq::empty(), es, size);
    assert(newest_first(es) + Seq::<TimestampedEventView>::empty() =~= newest_first(es));
}

/// A log of the most recent events, newest first.
#[derive(Debug)]
pub struct Events {
    log: VecDeque<TimestampedEvent>,
    log_size: usize,
}

impl Events {
    /// The logged events, newest first.
    pub closed spec fn logged(&self) -> Seq<TimestampedEventView> {
        event_views(self.log@)
    }

    /// How many events are kept at most.
    pub closed spec fn capacity(&self) -> nat {
        self.log_size as nat
    }

    /// Whether the log is within its capacity.
    pub closed spec fn wf(&self) -> bool {
        self.log@.len() <= self.log_size
    }

    /// A new, empty log keeping at most `log_size` events.
    pub fn new(log_size: usize) -> (ev: Self)
        ensures
            ev.logged() == Seq::<TimestampedEventView>::empty(),
            ev.capacity() == log_size,
            ev.wf(),
    {
        Events { log: VecDeque::new(), log_size }
    }

    /// Record an event: it goes first in the log, and the oldest events
    /// beyond the capacity are dropped. The event is handed back, to be broadcast.
    pub fn send_event(&mut self, event: TimestampedEvent) -> (sent: TimestampedEvent)
        requires
            old(self).wf(),
        ensures
            final(self).wf(),
            sent@ == event@,
            final(self).capacity() == old(self).capacity(),
            final(self).logged() == log_after(old(self).logged(), event@, old(self).capacity()),
    {
        let copy = event.duplicate();
        self.log.push_front(copy);
        let ghost pushed = self.log@;
        self.log.truncate(self.log_size);
        proof {
            assert(event_views(pushed) =~= seq![event@] + event_views(old(self).log@));
            if pushed.len() > self.log_size {
                assert(event_views(self.log@) =~= event_views(pushed).subrange(0, self.log_size as int));
            } else {
                assert(self.log@ == pushed);
            }
        }
        event
    }

    /// Record a user event, stamped with the current time.
    pub fn send_user_event(&mut self, user: &User, event: user::Event) -> (sent: TimestampedEvent)
        requires
            old(self).wf(),
        ensures
            final(self).wf(),
            sent@.inner == EventView::User(user::UserEventView { user: user@, event: event@ }),
            final(self).capacity() == old(self).capacity(),
            final(self).logged() == log_after(old(self).logged(), sent@, old(self).capacity()),
    {
        let e = TimestampedEvent::new_user_event(user, event);
        self.send_event(e)
    }

    /// The logged events, newest first: what a new subscriber is shown of the past.
    pub fn history(&self) -> (v: Vec<TimestampedEvent>)
        ensures
            event_views(v@) == self.logged(),
    {
        let mut v: Vec<TimestampedEvent> = Vec::new();
        let mut i: usize = 0;
        while i < self.log.len()
            invariant
                i <= self.log@.len(),
                event_views(v@) =~= event_views(self.log@).subrange(0, i as int),
            decreases self.log@.len() - i,
        {
            let ghost before = v@;
            v.push(self.log[i].duplicate());
            proof {
                assert(event_views(v@) =~= event_views(before).push(self.log@[i as int]@));
            }
            i += 1;
        }
        proof {
            assert(event_views(self.log@).subrange(0, self.log@.len() as int) =~= event_views(self.log@));
        }
        v
    }

    /// The number of logged events.
    pub fn len(&self) -> (n: usize)
        ensures
            n == self.logged().len(),
    {
        self.log.len()
    }
}

} // verus!
