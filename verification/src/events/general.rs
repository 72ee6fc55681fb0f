use vstd::prelude::*;

use crate::endpoint::{InternalEndpointInfo, InternalEndpointInfoView, display_info};
use crate::serial::{SerialMessage, display_message};
use crate::text::owned;

verus! {

/// Events not tied to any user.
#[derive(Debug)]
pub enum Event {
    /// A message was sent (i.e. put on wire).
    MessageSent((InternalEndpointInfo, SerialMessage)),
    /// A message was received (i.e. from wire).
    MessageReceived((InternalEndpointInfo, SerialMessage)),
}

/// The mathematical value of a general [`Event`].
pub enum EventView {
    /// Sent.
    MessageSent(InternalEndpointInfoView, Seq<char>),
    /// Received.
    MessageReceived(InternalEndpointInfoView, Seq<char>),
}

impl View for Event {
    type V = EventView;

    open spec fn view(&self) -> EventView {
        match self {
            Event::MessageSent((i, m)) => EventView::MessageSent(i@, m@),
            Event::MessageReceived((i, m)) => EventView::MessageReceived(i@, m@),
        }
    }
}

impl Event {
    /// A copy.
    pub fn duplicate(&self) -> (e: Self)
        ensures
            e@ == self@,
    {
        match self {
            Event::MessageSent((i, m)) => Event::MessageSent((i.duplicate(), m.duplicate())),
            Event::MessageReceived((i, m)) => Event::MessageReceived((i.duplicate(), m.duplicate())),
        }
    }
}

/// How a general event is shown to people.
pub open spec fn display_general_event(e: EventView) -> Seq<char> {
    match e {
        EventView::MessageSent(i, m) => "sent: "@ + display_message(m) + " to "@ + display_info(i),
        EventView::MessageReceived(i, m) => "received: "@ + display_message(m) + " from "@ + display_info(i),
    }
}

impl Event {
    /// As shown to people.
    pub fn display(&self) -> (s: String)
        ensures
            s@ == display_general_event(self@),
    {
        proof {
            reveal_strlit("sent: ");
            reveal_strlit(" to ");
            reveal_strlit("received: ");
            reveal_strlit(" from ");
        }
        let (verb, info, msg, link) = match self {
            Event::MessageSent((i, m)) => ("sent: ", i, m, " to "),
            Event::MessageReceived((i, m)) => ("received: ", i, m, " from "),
        };
        let mut s = owned(verb);
        let t = msg.display();
        s.append(t.as_str());
        s.append(link);
        let u = info.display();
        s.append(u.as_str());
        s
    }
}

} // verus!
