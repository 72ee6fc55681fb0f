use vstd::prelude::*;

use crate::endpoint::{
    EndpointId, EndpointIdView, LabelledEndpointId, LabelledEndpointIdView, Labels,
    display_endpoint_id, display_labelled, display_labels,
};
use crate::events::{TimestampedEvent, TimestampedEventView, display_any_event};
use crate::serial::{SerialMessage, SerialMessageBytes, display_message};
use crate::text::{debug_bytes, debug_bytes_prefix, min_nat, owned};

verus! {

/// Actions user can ask of the server.
#[derive(Debug)]
pub enum Action {
    /// Start controlling the given endpoint.
    ///
    /// This allows reading output from the given endpoint,
    /// but also exclusively writing to the endpoint.
    ///
    /// There may be many concurrent observers,
    /// but only a single controller.
    Control(EndpointId),
    /// Start controlling any endpoint matching the given labels.
    ControlAny(Labels),
    /// Start observing the given endpoint.
    ///
    /// The user may only read output from the given endpoint.
    Observe(EndpointId),
    /// Put this message on the wire for the given endpoint.
    Write((EndpointId, SerialMessage)),
    /// Put these bytes on the wire for the given endpoint.
    WriteBytes((EndpointId, SerialMessageBytes)),
    /// Start receiving events.
    ///
    /// This will send all events to the client, including
    /// users connecting and disconnecting, endpoint messages,
    /// and endpoint queue updates.
    ObserveEvents,
}

/// The mathematical value of an [`Action`].
pub enum ActionView {
    /// Control an endpoint.
    Control(EndpointIdView),
    /// Control any endpoint with these labels.
    ControlAny(Seq<Seq<char>>),
    /// Observe an endpoint.
    Observe(EndpointIdView),
    /// Write a message.
    Write(EndpointIdView, Seq<char>),
    /// Write bytes.
    WriteBytes(EndpointIdView, Seq<u8>),
    /// Receive events.
    ObserveEvents,
}

impl View for Action {
    type V = ActionView;

    open spec fn view(&self) -> ActionView {
        match self {
            Action::Control(id) => ActionView::Control(id@),
            Action::ControlAny(ls) => ActionView::ControlAny(ls@),
            Action::Observe(id) => ActionView::Observe(id@),
            Action::Write((id, m)) => ActionView::Write(id@, m@),
            Action::WriteBytes((id, b)) => ActionView::WriteBytes(id@, b@),
            Action::ObserveEvents => ActionView::ObserveEvents,
        }
    }
}

/// How an action is shown to people.
pub open spec fn display_action(a: ActionView) -> Seq<char> {
    match a {
        ActionView::Control(e) => "control: "@ + display_endpoint_id(e),
        ActionView::Observe(e) => "observe: "@ + display_endpoint_id(e),
        ActionView::Write(e, m) => "write: "@ + display_endpoint_id(e) + ", msg: "@ + display_message(m),
        ActionView::ControlAny(ls) => "control any: "@ + display_labels(ls),
        ActionView::WriteBytes(e, b) =>
            "write: "@ + display_endpoint_id(e) + ", msg: ["@
                + debug_bytes(b.take(min_nat(b.len(), 16) as int)) + "].."@,
        ActionView::ObserveEvents => "observe events"@,
    }
}

/// The text `prefix` followed by the endpoint as shown to people.
fn prefixed_endpoint(prefix: &str, id: &EndpointId) -> (s: String)
    ensures
        s@ == prefix@ + display_endpoint_id(id@),
{
    let mut s = owned(prefix);
    let t = id.display();
    s.append(t.as_str());
    s
}

impl Action {
    /// Create a control action.
    pub fn control(id: &EndpointId) -> (a: Self)
        ensures
            a@ == ActionView::Control(id@),
    {
        Action::Control(id.duplicate())
    }

    /// Create a control mock action.
    pub fn control_mock(name: &str) -> (a: Self)
        ensures
            a@ == ActionView::Control(EndpointIdView::Mock(name@)),
    {
        Action::control(&EndpointId::mock(name))
    }

    /// An example of requesting control of a mock.
    pub fn example_control_mock() -> (a: Self)
        ensures
            a@ == ActionView::Control(EndpointIdView::Mock("some-mock"@)),
    {
        Action::control_mock("some-mock")
    }

    /// Create a control tty action.
    pub fn control_tty(path: &str) -> (a: Self)
        ensures
            a@ == ActionView::Control(EndpointIdView::Tty(path@)),
    {
        Action::control(&EndpointId::tty(path))
    }

    /// An example of requesting control of a TTY.
    pub fn example_control_tty() -> (a: Self)
        ensures
            a@ == ActionView::Control(EndpointIdView::Tty("/dev/ttyACM123"@)),
    {
        Action::control_tty("/dev/ttyACM123")
    }

    /// Create a control any action: control of any endpoint carrying all these labels.
    pub fn control_any(labels: &[&str]) -> (a: Self)
        ensures
            a@ == ActionView::ControlAny(labels@.map_values(|s: &str| s@)),
    {
        Action::ControlAny(Labels::from_strs(labels))
    }

    /// An example of requesting control of any matching endpoint.
    pub fn example_control_any() -> (a: Self)
        ensures
            a@ == ActionView::ControlAny(seq!["my-label"@, "blue-device"@]),
    {
        let labels: [&str; 2] = ["my-label", "blue-device"];
        let a = Action::control_any(labels.as_slice());
        proof {
            assert(labels@.map_values(|s: &str| s@) =~= seq!["my-label"@, "blue-device"@]);
        }
        a
    }

    /// Create an observe action.
    pub fn observe(id: &EndpointId) -> (a: Self)
        ensures
            a@ == ActionView::Observe(id@),
    {
        Action::Observe(id.duplicate())
    }

    /// Create an observe TTY action.
    pub fn observe_tty(path: &str) -> (a: Self)
        ensures
            a@ == ActionView::Observe(EndpointIdView::Tty(path@)),
    {
        Action::Observe(EndpointId::tty(path))
    }

    /// An example of requesting to observe a TTY.
    pub fn example_observe_tty() -> (a: Self)
        ensures
            a@ == ActionView::Observe(EndpointIdView::Tty("/dev/ttyACM123"@)),
    {
        Action::observe_tty("/dev/ttyACM123")
    }

    /// Create an observe mock action.
    pub fn observe_mock(name: &str) -> (a: Self)
        ensures
            a@ == ActionView::Observe(EndpointIdView::Mock(name@)),
    {
        Action::Observe(EndpointId::mock(name))
    }

    /// An example of requesting to observe a mock.
    pub fn example_observe_mock() -> (a: Self)
        ensures
            a@ == ActionView::Observe(EndpointIdView::Mock("some-mock"@)),
    {
        Action::observe_mock("some-mock")
    }

    /// Create a write action.
    pub fn write(id: &EndpointId, message: SerialMessage) -> (a: Self)
        ensures
            a@ == ActionView::Write(id@, message@),
    {
        Action::Write((id.duplicate(), message))
    }

    /// An example of a write message to a TTY endpoint.
    pub fn example_write() -> (a: Self)
        ensures
            a@ == ActionView::Write(EndpointIdView::Tty("/dev/ttyACMx"@), "This is a message"@),
    {
        Action::Write((EndpointId::tty("/dev/ttyACMx"), SerialMessage::from_str("This is a message")))
    }

    /// Create a write bytes action.
    pub fn write_bytes(id: &EndpointId, bytes: SerialMessageBytes) -> (a: Self)
        ensures
            a@ == ActionView::WriteBytes(id@, bytes@),
    {
        Action::WriteBytes((id.duplicate(), bytes))
    }

    /// An example of a writing bytes to a mock endpoint.
    pub fn example_write_bytes() -> (a: Self)
        ensures
            a@ == ActionView::WriteBytes(
                EndpointIdView::Mock("/mock/ttyACMx"@),
                vstd::utf8::encode_utf8("This is a message"@),
            ),
    {
        let m = SerialMessage::from_str("This is a message");
        Action::WriteBytes((EndpointId::mock("/mock/ttyACMx"), m.into_bytes()))
    }

    /// Create an observe events action.
    pub fn observe_events() -> (a: Self)
        ensures
            a@ == ActionView::ObserveEvents,
    {
        Action::ObserveEvents
    }

    /// An example of an observe events action.
    pub fn example_observe_events() -> (a: Self)
        ensures
            a@ == ActionView::ObserveEvents,
    {
        Action::observe_events()
    }

    /// As shown to people.
    pub fn display(&self) -> (s: String)
        ensures
            s@ == display_action(self@),
    {
        proof {
            reveal_strlit("control: ");
            reveal_strlit("observe: ");
            reveal_strlit("write: ");
            reveal_strlit(", msg: ");
            reveal_strlit(", msg: [");
            reveal_strlit("]..");
            reveal_strlit("control any: ");
            reveal_strlit("observe events");
        }
        match self {
            Action::Control(e) => prefixed_endpoint("control: ", e),
            Action::Observe(e) => prefixed_endpoint("observe: ", e),
            Action::Write((e, m)) => {
                let mut s = prefixed_endpoint("write: ", e);
                s.append(", msg: ");
                let t = m.display();
                s.append(t.as_str());
                s
            },
            Action::ControlAny(ls) => {
                let mut s = owned("control any: ");
                let t = ls.display();
                s.append(t.as_str());
                s
            },
            Action::WriteBytes((e, b)) => {
                let mut s = prefixed_endpoint("write: ", e);
                s.append(", msg: [");
                let t = debug_bytes_prefix(b.as_slice(), 16);
                s.append(t.as_str());
                s.append("]..");
                s
            },
            Action::ObserveEvents => owned("observe events"),
        }
    }
}

/// A response type of "sync nature": a direct response to a request.
#[derive(Debug)]
pub enum Sync {
    /// The write action was successful.
    WriteOk,
    /// Now observing the following endpoint.
    Observing(LabelledEndpointId),
    /// Now receiving events.
    ObservingEvents,
    /// The requested endpoint was busy.
    /// When available, access is granted and
    /// [`Sync::ControlGranted`] is sent.
    ControlQueue(Vec<LabelledEndpointId>),
    /// The requested endpoint is now exclusively in use by the user.
    /// Writing to this endpoint is now possible.
    ControlGranted(Vec<LabelledEndpointId>),
}

/// The views of some labelled endpoint ids.
pub open spec fn labelled_views(v: Seq<LabelledEndpointId>) -> Seq<LabelledEndpointIdView> {
    v.map_values(|l: LabelledEndpointId| l@)
}

/// The mathematical value of a [`Sync`] response.
pub enum SyncView {
    /// Write ok.
    WriteOk,
    /// Observing.
    Observing(LabelledEndpointIdView),
    /// Observing events.
    ObservingEvents,
    /// Queued.
    ControlQueue(Seq<LabelledEndpointIdView>),
    /// Granted.
    ControlGranted(Seq<LabelledEndpointIdView>),
}

impl View for Sync {
    type V = SyncView;

    open spec fn view(&self) -> SyncView {
        match self {
            Sync::WriteOk => SyncView::WriteOk,
            Sync::Observing(l) => SyncView::Observing(l@),
            Sync::ObservingEvents => SyncView::ObservingEvents,
            Sync::ControlQueue(v) => SyncView::ControlQueue(labelled_views(v@)),
            Sync::ControlGranted(v) => SyncView::ControlGranted(labelled_views(v@)),
        }
    }
}

/// An async response type: might originate on the server side at any time.
#[derive(Debug)]
pub enum Async {
    /// An endpoint sent a message.
    Message {
        /// Which endpoint sent a message.
        endpoint: LabelledEndpointId,
        /// The message contents.
        message: SerialMessageBytes,
    },
    /// An event.
    Event(TimestampedEvent),
}

/// The mathematical value of an [`Async`] response.
pub enum AsyncView {
    /// A message.
    Message { endpoint: LabelledEndpointIdView, message: Seq<u8> },
    /// An event.
    Event(TimestampedEventView),
}

impl View for Async {
    type V = AsyncView;

    open spec fn view(&self) -> AsyncView {
        match self {
            Async::Message { endpoint, message } => AsyncView::Message { endpoint: endpoint@, message: message@ },
            Async::Event(e) => AsyncView::Event(e@),
        }
    }
}

/// Responses the server will send to connected users.
#[derive(Debug)]
pub enum Response {
    /// A synchronous response in the sense that it's sent directly after a user
    /// request.
    Sync(Sync),
    /// An async message: the server might send this at any time and not in response to any
    /// particular request.
    Async(Async),
}

/// The mathematical value of a [`Response`].
pub enum ResponseView {
    /// Sync.
    Sync(SyncView),
    /// Async.
    Async(AsyncView),
}

impl View for Response {
    type V = ResponseView;

    open spec fn view(&self) -> ResponseView {
        match self {
            Response::Sync(s) => ResponseView::Sync(s@),
            Response::Async(a) => ResponseView::Async(a@),
        }
    }
}

/// Labelled endpoints shown one after the other, with nothing between them.
pub open spec fn concat_labelled(v: Seq<LabelledEndpointIdView>) -> Seq<char>
    decreases v.len(),
{
    if v.len() == 0 {
        Seq::empty()
    } else {
        concat_labelled(v.drop_last()) + display_labelled(v.last())
    }
}

/// How a response is shown to people.
pub open spec fn display_response(r: ResponseView) -> Seq<char> {
    match r {
        ResponseView::Sync(SyncView::WriteOk) => "Write ok"@,
        ResponseView::Sync(SyncView::ObservingEvents) => "User events subscription ok"@,
        ResponseView::Sync(SyncView::Observing(id)) => "Observing "@ + display_labelled(id),
        ResponseView::Sync(SyncView::ControlQueue(ids)) => "In control queue for "@ + concat_labelled(ids),
        ResponseView::Sync(SyncView::ControlGranted(ids)) => "Control granted for "@ + concat_labelled(ids),
        ResponseView::Async(AsyncView::Message { endpoint, message }) =>
            "Message from "@ + display_labelled(endpoint) + ": `["@
                + debug_bytes(message.take(min_nat(message.len(), 32) as int)) + "..]`"@,
        ResponseView::Async(AsyncView::Event(e)) => "UserEvent: `["@ + display_any_event(e.inner) + "..]`"@,
    }
}

/// The text `prefix` followed by each labelled endpoint as shown to people.
fn prefixed_labelled(prefix: &str, ids: &Vec<LabelledEndpointId>) -> (s: String)
    ensures
        s@ == prefix@ + concat_labelled(labelled_views(ids@)),
{
    let mut s = owned(prefix);
    let mut i: usize = 0;
    while i < ids.len()
        invariant
            i <= ids@.len(),
            s@ == prefix@ + concat_labelled(labelled_views(ids@).take(i as int)),
        decreases ids@.len() - i,
    {
        let t = ids[i].display();
        s.append(t.as_str());
        proof {
            let next = labelled_views(ids@).take(i + 1);
            assert(next.drop_last() =~= labelled_views(ids@).take(i as int));
            assert(next.last() == ids@[i as int]@);
        }
        i += 1;
    }
    proof {
        assert(labelled_views(ids@).take(ids@.len() as int) =~= labelled_views(ids@));
    }
    s
}

impl Response {
    /// A message write went well.
    pub fn write_ok() -> (r: Self)
        ensures
            r@ == ResponseView::Sync(SyncView::WriteOk),
    {
        Response::Sync(Sync::WriteOk)
    }

    /// An example of a message write OK response.
    pub fn example_write_ok() -> (r: Self)
        ensures
            r@ == ResponseView::Sync(SyncView::WriteOk),
    {
        Response::write_ok()
    }

    /// Now receiving events.
    pub fn observing_events() -> (r: Self)
        ensures
            r@ == ResponseView::Sync(SyncView::ObservingEvents),
    {
        Response::Sync(Sync::ObservingEvents)
    }

    /// An example of an observe events OK response.
    pub fn example_observing_events() -> (r: Self)
        ensures
            r@ == ResponseView::Sync(SyncView::ObservingEvents),
    {
        Response::observing_events()
    }

    /// A message from an endpoint.
    pub fn message(endpoint: LabelledEndpointId, message: SerialMessageBytes) -> (r: Self)
        ensures
            r@ == ResponseView::Async(AsyncView::Message { endpoint: endpoint@, message: message@ }),
    {
        Response::Async(Async::Message { endpoint, message })
    }

    /// An example of a new message response. These are async and might appear at any time after a user has
    /// started observing the related endpoint.
    pub fn example_new_message() -> (r: Self)
        ensures
            r@ == ResponseView::Async(AsyncView::Message {
                endpoint: LabelledEndpointIdView { id: EndpointIdView::Tty("COM0"@), labels: None },
                message: vstd::utf8::encode_utf8("Hello World!"@),
            }),
    {
        let m = SerialMessage::from_str("Hello World!");
        Response::message(LabelledEndpointId::new(&EndpointId::tty("COM0")), m.into_bytes())
    }

    /// Now observing an endpoint.
    pub fn observing(id: LabelledEndpointId) -> (r: Self)
        ensures
            r@ == ResponseView::Sync(SyncView::Observing(id@)),
    {
        Response::Sync(Sync::Observing(id))
    }

    /// An example of a new message response.
    pub fn example_observing() -> (r: Self)
        ensures
            r@ == ResponseView::Sync(SyncView::Observing(LabelledEndpointIdView {
                id: EndpointIdView::Tty("/dev/ttyACM1"@),
                labels: Some(seq!["secure"@]),
            })),
    {
        let labels: [&str; 1] = ["secure"];
        let r = Response::observing(LabelledEndpointId::new_with_labels(&EndpointId::tty("/dev/ttyACM1"), labels.as_slice()));
        proof {
            assert(labels@.map_values(|s: &str| s@) =~= seq!["secure"@]);
        }
        r
    }

    /// Control was granted over these endpoints.
    pub fn control_granted(granted: Vec<LabelledEndpointId>) -> (r: Self)
        ensures
            r@ == ResponseView::Sync(SyncView::ControlGranted(labelled_views(granted@))),
    {
        Response::Sync(Sync::ControlGranted(granted))
    }

    /// An example of a control granted response.
    pub fn example_control_granted() -> (r: Self)
        ensures
            r@ == ResponseView::Sync(SyncView::ControlGranted(example_endpoints())),
    {
        let v = example_endpoint_list();
        Response::control_granted(v)
    }

    /// The user was queued for these endpoints.
    pub fn control_queue(queued_on: Vec<LabelledEndpointId>) -> (r: Self)
        ensures
            r@ == ResponseView::Sync(SyncView::ControlQueue(labelled_views(queued_on@))),
    {
        Response::Sync(Sync::ControlQueue(queued_on))
    }

    /// An example response when the user gets queued instead of being granted access.
    pub fn example_control_queue() -> (r: Self)
        ensures
            r@ == ResponseView::Sync(SyncView::ControlQueue(example_endpoints())),
    {
        let v = example_endpoint_list();
        Response::control_queue(v)
    }

    /// As shown to people.
    pub fn display(&self) -> (s: String)
        ensures
            s@ == display_response(self@),
    {
        proof {
            reveal_strlit("Write ok");
            reveal_strlit("User events subscription ok");
            reveal_strlit("Observing ");
            reveal_strlit("In control queue for ");
            reveal_strlit("Control granted for ");
            reveal_strlit("Message from ");
            reveal_strlit(": `[");
            reveal_strlit("..]`");
            reveal_strlit("UserEvent: `[");
        }
        match self {
            Response::Sync(Sync::WriteOk) => owned("Write ok"),
            Response::Sync(Sync::ObservingEvents) => owned("User events subscription ok"),
            Response::Sync(Sync::Observing(id)) => {
                let mut s = owned("Observing ");
                let t = id.display();
                s.append(t.as_str());
                s
            },
            Response::Sync(Sync::ControlQueue(ids)) => prefixed_labelled("In control queue for ", ids),
            Response::Sync(Sync::ControlGranted(ids)) => prefixed_labelled("Control granted for ", ids),
            Response::Async(Async::Message { endpoint, message }) => {
                let mut s = owned("Message from ");
                let t = endpoint.display();
                s.append(t.as_str());
                s.append(": `[");
                let b = debug_bytes_prefix(message.as_slice(), 32);
                s.append(b.as_str());
                s.append("..]`");
                s
            },
            Response::Async(Async::Event(e)) => {
                let mut s = owned("UserEvent: `[");
                let t = e.display();
                s.append(t.as_str());
                s.append("..]`");
                s
            },
        }
    }
}

/// The endpoints of the control examples: `COM0` without labels, and
/// `/dev/ttyACMx` with two labels.
pub open spec fn example_endpoints() -> Seq<LabelledEndpointIdView> {
    seq![
        LabelledEndpointIdView { id: EndpointIdView::Tty("COM0"@), labels: None },
        LabelledEndpointIdView {
            id: EndpointIdView::Tty("/dev/ttyACMx"@),
            labels: Some(seq!["device-type-1"@, "server-room-foo"@]),
        },
    ]
}

fn example_endpoint_list() -> (v: Vec<LabelledEndpointId>)
    ensures
        labelled_views(v@) == example_endpoints(),
{
    let labels: [&str; 2] = ["device-type-1", "server-room-foo"];
    let first = LabelledEndpointId::new(&EndpointId::tty("COM0"));
    let second = LabelledEndpointId::new_with_labels(&EndpointId::tty("/dev/ttyACMx"), labels.as_slice());
    let mut v: Vec<LabelledEndpointId> = Vec::new();
    v.push(first);
    v.push(second);
    proof {
        assert(labels@.map_values(|s: &str| s@) =~= seq!["device-type-1"@, "server-room-foo"@]);
        assert(labelled_views(v@) =~= example_endpoints());
    }
    v
}

/// A fallible response.
pub type ResponseResult = Result<Response, crate::error::Error>;

} // verus!
