use vstd::prelude::*;

use crate::endpoint::{InternalEndpointInfo, InternalEndpointInfoView, display_info, duplicate_infos, info_views};
use crate::serial::{SerialMessage, display_message};
use crate::text::{join_comma, join_with_commas, owned, string_views};
use crate::user::User;

verus! {

/// Events that can happen to a user.
#[derive(Debug)]
pub enum Event {
    /// A user has connected.
    Connected,
    /// A user has disconnected.
    Disconnected,
    /// A user sent (i.e. put on wire) this message.
    MessageSent((InternalEndpointInfo, SerialMessage)),
    /// A user received (i.e. got from wire) this message.
    MessageReceived((InternalEndpointInfo, SerialMessage)),
    /// A user is now observing some endpoints.
    Observing(Vec<InternalEndpointInfo>),
    /// A user is no longer observing some endpoints.
    NoLongerObserving(Vec<InternalEndpointInfo>),
    /// A user is now in queue for some endpoints.
    InQueueFor(Vec<InternalEndpointInfo>),
    /// A user is now in control of some endpoints.
    InControlOf(Vec<InternalEndpointInfo>),
    /// A user is no longer in queue for some endpoints.
    NoLongerInQueueOf(Vec<InternalEndpointInfo>),
    /// A user is no longer in control of some endpoints.
    NoLongerInControlOf(Vec<InternalEndpointInfo>),
}

/// The mathematical value of a user [`Event`].
pub enum EventView {
    /// Connected.
    Connected,
    /// Disconnected.
    Disconnected,
    /// Message sent.
    MessageSent(InternalEndpointInfoView, Seq<char>),
    /// Message received.
    MessageReceived(InternalEndpointInfoView, Seq<char>),
    /// Now observing.
    Observing(Seq<InternalEndpointInfoView>),
    /// No longer observing.
    NoLongerObserving(Seq<InternalEndpointInfoView>),
    /// Now queued.
    InQueueFor(Seq<InternalEndpointInfoView>),
    /// Now controlling.
    InControlOf(Seq<InternalEndpointInfoView>),
    /// No longer queued.
    NoLongerInQueueOf(Seq<InternalEndpointInfoView>),
    /// No longer controlling.
    NoLongerInControlOf(Seq<InternalEndpointInfoView>),
}

impl View for Event {
    type V = EventView;

    open spec fn view(&self) -> EventView {
        match self {
            Event::Connected => EventView::Connected,
            Event::Disconnected => EventView::Disconnected,
            Event::MessageSent((i, m)) => EventView::MessageSent(i@, m@),
            Event::MessageReceived((i, m)) => EventView::MessageReceived(i@, m@),
            Event::Observing(v) => EventView::Observing(info_views(v@)),
            Event::NoLongerObserving(v) => EventView::NoLongerObserving(info_views(v@)),
            Event::InQueueFor(v) => EventView::InQueueFor(info_views(v@)),
            Event::InControlOf(v) => EventView::InControlOf(info_views(v@)),
            Event::NoLongerInQueueOf(v) => EventView::NoLongerInQueueOf(info_views(v@)),
            Event::NoLongerInControlOf(v) => EventView::NoLongerInControlOf(info_views(v@)),
        }
    }
}

impl Event {
    /// A copy.
    pub fn duplicate(&self) -> (e: Self)
        ensures
            e@ == self@,
    {
        match self {
            Event::Connected => Event::Connected,
            Event::Disconnected => Event::Disconnected,
            Event::MessageSent((i, m)) => Event::MessageSent((i.duplicate(), m.duplicate())),
            Event::MessageReceived((i, m)) => Event::MessageReceived((i.duplicate(), m.duplicate())),
            Event::Observing(v) => Event::Observing(duplicate_infos(v)),
            Event::NoLongerObserving(v) => Event::NoLongerObserving(duplicate_infos(v)),
            Event::InQueueFor(v) => Event::InQueueFor(duplicate_infos(v)),
            Event::InControlOf(v) => Event::InControlOf(duplicate_infos(v)),
            Event::NoLongerInQueueOf(v) => Event::NoLongerInQueueOf(duplicate_infos(v)),
            Event::NoLongerInControlOf(v) => Event::NoLongerInControlOf(duplicate_infos(v)),
        }
    }
}

/// An event related to some user.
#[derive(Debug)]
pub struct UserEvent {
    /// The user related to this event.
    pub user: User,
    /// The event.
    pub event: Event,
}

/// The mathematical value of a [`UserEvent`].
pub struct UserEventView {
    /// The user's name.
    pub user: Seq<char>,
    /// The event.
    pub event: EventView,
}

impl View for UserEvent {
    type V = UserEventView;

    open spec fn view(&self) -> UserEventView {
        UserEventView { user: self.user@, event: self.event@ }
    }
}

impl UserEvent {
    /// A copy.
    pub fn duplicate(&self) -> (e: Self)
        ensures
            e@ == self@,
    {
        UserEvent { user: self.user.duplicate(), event: self.event.duplicate() }
    }
}

/// How some endpoints are shown to people, each as [`display_info`] does.
pub open spec fn info_texts(v: Seq<InternalEndpointInfoView>) -> Seq<Seq<char>> {
    v.map_values(|i: InternalEndpointInfoView| display_info(i))
}

/// A prefix, a space, then the endpoints separated by commas.
pub open spec fn prefixed_infos(prefix: Seq<char>, v: Seq<InternalEndpointInfoView>) -> Seq<char> {
    prefix + " "@ + join_comma(info_texts(v))
}

/// How a user event is shown to people.
pub open spec fn display_event(e: EventView) -> Seq<char> {
    match e {
        EventView::Connected => "connected"@,
        EventView::Disconnected => "disconnected"@,
        EventView::Observing(v) => prefixed_infos("observing"@, v),
        EventView::NoLongerObserving(v) => prefixed_infos("no longer observing"@, v),
        EventView::InQueueFor(v) => prefixed_infos("in queue for"@, v),
        EventView::InControlOf(v) => prefixed_infos("in control of"@, v),
        EventView::NoLongerInQueueOf(v) => prefixed_infos("no longer in queue for"@, v),
        EventView::NoLongerInControlOf(v) => prefixed_infos("no longer in control of"@, v),
        EventView::MessageSent(i, m) => "sent: "@ + display_message(m) + " to "@ + display_info(i),
        EventView::MessageReceived(i, m) => "received: "@ + display_message(m) + " to "@ + display_info(i),
    }
}

/// How a user event with its user is shown to people.
pub open spec fn display_user_event(e: UserEventView) -> Seq<char> {
    e.user + ": "@ + display_event(e.event)
}

fn infos_text(prefix: &str, v: &Vec<InternalEndpointInfo>) -> (s: String)
    ensures
        s@ == prefixed_infos(prefix@, info_views(v@)),
{
    let mut parts: Vec<String> = Vec::new();
    let mut i: usize = 0;
    while i < v.len()
        invariant
            i <= v@.len(),
            string_views(parts@) =~= info_texts(info_views(v@).take(i as int)),
        decreases v@.len() - i,
    {
        let ghost before = parts@;
        let t = v[i].display();
        parts.push(t);
        proof {
            assert(info_views(v@).take(i + 1) =~= info_views(v@).take(i as int).push(v@[i as int]@));
            assert(string_views(parts@) =~= string_views(before).push(t@));
        }
        i += 1;
    }
    proof {
        assert(info_views(v@).take(v@.len() as int) =~= info_views(v@));
        reveal_strlit(" ");
    }
    let mut s = owned(prefix);
    s.append(" ");
    let joined = join_with_commas(&parts);
    s.append(joined.as_str());
    s
}

fn message_text(verb: &str, m: &SerialMessage, i: &InternalEndpointInfo) -> (s: String)
    ensures
        s@ == verb@ + display_message(m@) + " to "@ + display_info(i@),
{
    proof { reveal_strlit(" to "); }
    let mut s = owned(verb);
    let t = m.display();
    s.append(t.as_str());
    s.append(" to ");
    let u = i.display();
    s.append(u.as_str());
    s
}

impl Event {
    /// As shown to people.
    pub fn display(&self) -> (s: String)
        ensures
            s@ == display_event(self@),
    {
        match self {
            Event::Connected => {
                proof { reveal_strlit("connected"); }
                owned("connected")
            },
            Event::Disconnected => {
                proof { reveal_strlit("disconnected"); }
                owned("disconnected")
            },
            Event::Observing(v) => {
                proof { reveal_strlit("observing"); }
                infos_text("observing", v)
            },
            Event::NoLongerObserving(v) => {
                proof { reveal_strlit("no longer observing"); }
                infos_text("no longer observing", v)
            },
            Event::InQueueFor(v) => {
                proof { reveal_strlit("in queue for"); }
                infos_text("in queue for", v)
            },
            Event::InControlOf(v) => {
                proof { reveal_strlit("in control of"); }
                infos_text("in control of", v)
            },
            Event::NoLongerInQueueOf(v) => {
                proof { reveal_strlit("no longer in queue for"); }
                infos_text("no longer in queue for", v)
            },
            Event::NoLongerInControlOf(v) => {
                proof { reveal_strlit("no longer in control of"); }
                infos_text("no longer in control of", v)
            },
            Event::MessageSent((i, m)) => {
                proof { reveal_strlit("sent: "); }
                message_text("sent: ", m, i)
            },
            Event::MessageReceived((i, m)) => {
                proof { reveal_strlit("received: "); }
                message_text("received: ", m, i)
            },
        }
    }
}

impl UserEvent {
    /// As shown to people: the user, a colon, and the event.
    pub fn display(&self) -> (s: String)
        ensures
            s@ == display_user_event(self@),
    {
        proof { reveal_strlit(": "); }
        let mut s = self.user.display();
        s.append(": ");
        let t = self.event.display();
        s.append(t.as_str());
        s
    }
}

} // verus!
