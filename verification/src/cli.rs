use vstd::prelude::*;

use crate::actions::{self, Action, ActionView, ResponseView, SyncView, AsyncView, example_endpoints};
use crate::config::{Config, ConfigView, example_config};
use crate::endpoint::{EndpointId, EndpointIdView, LabelledEndpointId, LabelledEndpointIdView};
use crate::serial::SerialMessage;
use crate::text::owned;

verus! {

/// Commands available in the command line interface.
#[derive(Debug, Clone, Copy, PartialEq, Eq)]
pub enum Commands {
    /// Examples for user convenience.
    Examples(Examples),
}

/// Helpful examples for users.
#[derive(Debug, Clone, Copy, PartialEq, Eq)]
pub enum Examples {
    /// Show an example of a configuration file's contents.
    Config,
    /// Show an example of a somewhat complete session between a client and a server.
    /// Aims to showcase most of the things a client and server can exchange between them.
    Session,
    /// Examples relating to user requests.
    Request(Request),
    /// Examples relating to server-to-user responses.
    Response(Response),
}

/// Examples of requests a user may send to the server.
#[derive(Debug, Clone, Copy, PartialEq, Eq)]
pub enum Request {
    /// An example JSON request of controlling a specific mock endpoint.
    ControlMock,
    /// An example JSON request of controlling a specific TTY endpoint.
    ControlTty,
    /// An example JSON request of controlling any endpoint matching the provided label(s).
    ControlAny,
    /// An example JSON request of observing a specific TTY endpoint.
    ObserveTty,
    /// An example JSON request of observing a specific mock endpoint.
    ObserveMock,
    /// An example JSON request of writing a message to an endpoint.
    WriteMessage,
    /// An example JSON request of writing bytes to an endpoint.
    WriteMessageBytes,
    /// An example JSON request of observing all events from all sources.
    ObserveEvents,
}

/// Examples of responses a user might see from a server.
#[derive(Debug, Clone, Copy, PartialEq, Eq)]
pub enum Response {
    /// An example JSON response of a confirmation that writing a message was ok.
    WriteOk,
    /// An example JSON response of a confirmation that the user is now observing all events.
    ObservingEvents,
    /// An example JSON response of a new message received.
    NewMessage,
    /// An example JSON response to successfully starting to observe an endpoint.
    Observing,
    /// An example JSON response to granted control.
    ControlGranted,
    /// An example JSON response to being queued for control.
    ControlQueued,
}

/// One line of the example session.
#[derive(Debug)]
pub enum SessionLine {
    /// A comment for the reader.
    Comment(String),
    /// A request the user sends.
    Request(Action),
    /// A successful response the server sends.
    Response(actions::Response),
}

/// The mathematical value of a [`SessionLine`].
pub enum SessionLineView {
    /// A comment.
    Comment(Seq<char>),
    /// A request.
    Request(ActionView),
    /// A response.
    Response(ResponseView),
}

impl View for SessionLine {
    type V = SessionLineView;

    open spec fn view(&self) -> SessionLineView {
        match self {
            SessionLine::Comment(c) => SessionLineView::Comment(c@),
            SessionLine::Request(a) => SessionLineView::Request(a@),
            SessionLine::Response(r) => SessionLineView::Response(r@),
        }
    }
}

/// The views of session lines.
pub open spec fn session_views(v: Seq<SessionLine>) -> Seq<SessionLineView> {
    v.map_values(|l: SessionLine| l@)
}

/// What a command asks to be shown.
#[derive(Debug)]
pub enum CommandOutput {
    /// A configuration, to be shown as a configuration file.
    Config(Config),
    /// A session, line by line.
    Session(Vec<SessionLine>),
    /// A request, to be shown as JSON.
    Request(Action),
    /// A successful response, to be shown as JSON.
    OkResponse(actions::Response),
}

/// The mathematical value of a [`CommandOutput`].
pub enum CommandOutputView {
    /// A configuration.
    Config(ConfigView),
    /// A session.
    Session(Seq<SessionLineView>),
    /// A request.
    Request(ActionView),
    /// A response.
    OkResponse(ResponseView),
}

impl View for CommandOutput {
    type V = CommandOutputView;

    open spec fn view(&self) -> CommandOutputView {
        match self {
            CommandOutput::Config(c) => CommandOutputView::Config(c@),
            CommandOutput::Session(v) => CommandOutputView::Session(session_views(v@)),
            CommandOutput::Request(a) => CommandOutputView::Request(a@),
            CommandOutput::OkResponse(r) => CommandOutputView::OkResponse(r@),
        }
    }
}

/// The example request for each kind of request.
pub open spec fn request_example(r: Request) -> ActionView {
    match r {
        Request::ControlMock => ActionView::Control(EndpointIdView::Mock("some-mock"@)),
        Request::ControlTty => ActionView::Control(EndpointIdView::Tty("/dev/ttyACM123"@)),
        Request::ControlAny => ActionView::ControlAny(seq!["my-label"@, "blue-device"@]),
        Request::ObserveTty => ActionView::Observe(EndpointIdView::Tty("/dev/ttyACM123"@)),
        Request::ObserveMock => ActionView::Observe(EndpointIdView::Mock("some-mock"@)),
        Request::WriteMessage => ActionView::Write(EndpointIdView::Tty("/dev/ttyACMx"@), "This is a message"@),
        Request::WriteMessageBytes => ActionView::WriteBytes(
            EndpointIdView::Mock("/mock/ttyACMx"@),
            vstd::utf8::encode_utf8("This is a message"@),
        ),
        Request::ObserveEvents => ActionView::ObserveEvents,
    }
}

/// The example response for each kind of response.
pub open spec fn response_example(r: Response) -> ResponseView {
    match r {
        Response::WriteOk => ResponseView::Sync(SyncView::WriteOk),
        Response::ObservingEvents => ResponseView::Sync(SyncView::ObservingEvents),
        Response::NewMessage => ResponseView::Async(AsyncView::Message {
            endpoint: LabelledEndpointIdView { id: EndpointIdView::Tty("COM0"@), labels: None },
            message: vstd::utf8::encode_utf8("Hello World!"@),
        }),
        Response::Observing => ResponseView::Sync(SyncView::Observing(LabelledEndpointIdView {
            id: EndpointIdView::Tty("/dev/ttyACM1"@),
            labels: Some(seq!["secure"@]),
        })),
        Response::ControlGranted => ResponseView::Sync(SyncView::ControlGranted(example_endpoints())),
        Response::ControlQueued => ResponseView::Sync(SyncView::ControlQueue(example_endpoints())),
    }
}

/// What each command shows.
pub open spec fn command_output(c: Commands) -> CommandOutputView {
    match c {
        Commands::Examples(Examples::Config) => CommandOutputView::Config(example_config()),
        Commands::Examples(Examples::Session) => CommandOutputView::Session(session_script()),
        Commands::Examples(Examples::Request(r)) => CommandOutputView::Request(request_example(r)),
        Commands::Examples(Examples::Response(r)) => CommandOutputView::OkResponse(response_example(r)),
    }
}

/// `/dev/ttyACM0`, without labels, as used in the example session.
pub open spec fn session_acm0() -> LabelledEndpointIdView {
    LabelledEndpointIdView { id: EndpointIdView::Tty("/dev/ttyACM0"@), labels: None }
}

/// `/dev/ttyACM1`, labelled fast and secure, as used in the example session.
pub open spec fn session_acm1() -> LabelledEndpointIdView {
    LabelledEndpointIdView { id: EndpointIdView::Tty("/dev/ttyACM1"@), labels: Some(seq!["fast"@, "secure"@]) }
}

/// `/dev/ttyACM2`, labelled fast, secure and expensive, as used in the example session.
pub open spec fn session_acm2() -> LabelledEndpointIdView {
    LabelledEndpointIdView {
        id: EndpointIdView::Tty("/dev/ttyACM2"@),
        labels: Some(seq!["fast"@, "secure"@, "expensive"@]),
    }
}

/// The example session: what a user sends, what the server answers, and comments.
pub open spec fn session_script() -> Seq<SessionLineView> {
    seq![
        SessionLineView::Comment("Example session. User requests are prepended with >, server responses are prepended with <"@),
        SessionLineView::Comment(""@),
        SessionLineView::Comment("The user wants exclusive access over an endpoint"@),
        SessionLineView::Request(ActionView::Control(EndpointIdView::Tty("/dev/ttyACM0"@))),
        SessionLineView::Comment("The endpoint was not in use so the user gets access right away"@),
        SessionLineView::Response(ResponseView::Sync(SyncView::ControlGranted(seq![session_acm0()]))),
        SessionLineView::Comment(""@),
        SessionLineView::Comment("The user also wants access to any endpoint matching a few labels"@),
        SessionLineView::Request(ActionView::ControlAny(seq!["fast"@, "secure"@])),
        SessionLineView::Comment("Two endpoints matched, neither were available, therefore queued"@),
        SessionLineView::Response(ResponseView::Sync(SyncView::ControlQueue(seq![session_acm1(), session_acm2()]))),
        SessionLineView::Comment("The user sits around and waits for another response"@),
        SessionLineView::Comment("Some time passes.. Then one is available"@),
        SessionLineView::Response(ResponseView::Sync(SyncView::ControlGranted(seq![session_acm2()]))),
        SessionLineView::Comment(""@),
        SessionLineView::Comment("The user wants to know about messages received too, so they observe an endpoint"@),
        SessionLineView::Request(ActionView::Observe(EndpointIdView::Tty("/dev/ttyACM0"@))),
        SessionLineView::Response(ResponseView::Sync(SyncView::Observing(session_acm0()))),
        SessionLineView::Comment(""@),
        SessionLineView::Comment("Messages might now appear at any time on that endpoint"@),
        SessionLineView::Comment("The server does not assume an encoding for the message, so the user should decode it if it's e.g. utf-8"@),
        SessionLineView::Response(ResponseView::Async(AsyncView::Message {
            endpoint: session_acm0(),
            message: vstd::utf8::encode_utf8("Hello, world"@),
        })),
        SessionLineView::Comment(""@),
        SessionLineView::Comment("Since the user controls a few endpoints, the user may write to those at any time"@),
        SessionLineView::Request(ActionView::Write(EndpointIdView::Tty("/dev/ttyACM0"@), "Hi there, endpoint!"@)),
        SessionLineView::Response(ResponseView::Sync(SyncView::WriteOk)),
        SessionLineView::Comment(""@),
        SessionLineView::Comment("The user leaves and the endpoints they controlled are then available for others"@),
    ]
}

fn push_comment(lines: &mut Vec<SessionLine>, text: &str)
    ensures
        session_views(final(lines)@) == session_views(old(lines)@).push(SessionLineView::Comment(text@)),
{
    let ghost before = lines@;
    lines.push(SessionLine::Comment(owned(text)));
    proof {
        assert(session_views(lines@) =~= session_views(before).push(SessionLineView::Comment(text@)));
    }
}

fn push_request(lines: &mut Vec<SessionLine>, a: Action)
    ensures
        session_views(final(lines)@) == session_views(old(lines)@).push(SessionLineView::Request(a@)),
{
    let ghost before = lines@;
    let ghost v = a@;
    lines.push(SessionLine::Request(a));
    proof {
        assert(session_views(lines@) =~= session_views(before).push(SessionLineView::Request(v)));
    }
}

fn push_response(lines: &mut Vec<SessionLine>, r: actions::Response)
    ensures
        session_views(final(lines)@) == session_views(old(lines)@).push(SessionLineView::Response(r@)),
{
    let ghost before = lines@;
    let ghost v = r@;
    lines.push(SessionLine::Response(r));
    proof {
        assert(session_views(lines@) =~= session_views(before).push(SessionLineView::Response(v)));
    }
}

fn one_endpoint(l: LabelledEndpointId) -> (v: Vec<LabelledEndpointId>)
    ensures
        actions::labelled_views(v@) == seq![l@],
{
    let ghost lv = l@;
    let mut v: Vec<LabelledEndpointId> = Vec::new();
    v.push(l);
    proof {
        assert(actions::labelled_views(v@) =~= seq![lv]);
    }
    v
}

/// The example session, line by line.
pub fn session() -> (lines: Vec<SessionLine>)
    ensures
        session_views(lines@) == session_script(),
{
    let fast_secure: [&str; 2] = ["fast", "secure"];
    let fast_secure_expensive: [&str; 3] = ["fast", "secure", "expensive"];
    let acm0 = EndpointId::tty("/dev/ttyACM0");
    let lei_0 = LabelledEndpointId::new(&acm0);
    let lei_1 = LabelledEndpointId::new_with_labels(&EndpointId::tty("/dev/ttyACM1"), fast_secure.as_slice());
    let lei_2 = LabelledEndpointId::new_with_labels(&EndpointId::tty("/dev/ttyACM2"), fast_secure_expensive.as_slice());
    proof {
        assert(fast_secure@.map_values(|s: &str| s@) =~= seq!["fast"@, "secure"@]);
        assert(fast_secure_expensive@.map_values(|s: &str| s@) =~= seq!["fast"@, "secure"@, "expensive"@]);
    }
    let mut lines: Vec<SessionLine> = Vec::new();
    push_comment(&mut lines, "Example session. User requests are prepended with >, server responses are prepended with <");
    push_comment(&mut lines, "");
    push_comment(&mut lines, "The user wants exclusive access over an endpoint");
    push_request(&mut lines, Action::control_tty("/dev/ttyACM0"));
    push_comment(&mut lines, "The endpoint was not in use so the user gets access right away");
    push_response(&mut lines, actions::Response::control_granted(one_endpoint(lei_0.duplicate())));
    push_comment(&mut lines, "");
    push_comment(&mut lines, "The user also wants access to any endpoint matching a few labels");
    push_request(&mut lines, Action::control_any(fast_secure.as_slice()));
    push_comment(&mut lines, "Two endpoints matched, neither were available, therefore queued");
    let mut queued: Vec<LabelledEndpointId> = Vec::new();
    queued.push(lei_1);
    queued.push(lei_2.duplicate());
    proof {
        assert(actions::labelled_views(queued@) =~= seq![session_acm1(), session_acm2()]);
    }
    push_response(&mut lines, actions::Response::control_queue(queued));
    push_comment(&mut lines, "The user sits around and waits for another response");
    push_comment(&mut lines, "Some time passes.. Then one is available");
    push_response(&mut lines, actions::Response::control_granted(one_endpoint(lei_2)));
    push_comment(&mut lines, "");
    push_comment(&mut lines, "The user wants to know about messages received too, so they observe an endpoint");
    push_request(&mut lines, Action::observe(&acm0));
    push_response(&mut lines, actions::Response::observing(lei_0.duplicate()));
    push_comment(&mut lines, "");
    push_comment(&mut lines, "Messages might now appear at any time on that endpoint");
    push_comment(&mut lines, "The server does not assume an encoding for the message, so the user should decode it if it's e.g. utf-8");
    let hello = SerialMessage::from_str("Hello, world");
    push_response(&mut lines, actions::Response::message(lei_0, hello.into_bytes()));
    push_comment(&mut lines, "");
    push_comment(&mut lines, "Since the user controls a few endpoints, the user may write to those at any time");
    push_request(&mut lines, Action::write(&acm0, SerialMessage::from_str("Hi there, endpoint!")));
    push_response(&mut lines, actions::Response::write_ok());
    push_comment(&mut lines, "");
    push_comment(&mut lines, "The user leaves and the endpoints they controlled are then available for others");
    proof {
        assert(session_views(lines@) =~= session_script());
    }
    lines
}

/// What to show for a command.
pub fn handle_command(command: Commands) -> (out: CommandOutput)
    ensures
        out@ == command_output(command),
{
    match command {
        Commands::Examples(example) => match example {
            Examples::Config => CommandOutput::Config(Config::example()),
            Examples::Session => CommandOutput::Session(session()),
            Examples::Request(r) => CommandOutput::Request(match r {
                Request::ControlMock => Action::example_control_mock(),
                Request::ControlTty => Action::example_control_tty(),
                Request::ControlAny => Action::example_control_any(),
                Request::ObserveTty => Action::example_observe_tty(),
                Request::ObserveMock => Action::example_observe_mock(),
                Request::WriteMessage => Action::example_write(),
                Request::WriteMessageBytes => Action::example_write_bytes(),
                Request::ObserveEvents => Action::example_observe_events(),
            }),
            Examples::Response(r) => CommandOutput::OkResponse(match r {
                Response::WriteOk => actions::Response::example_write_ok(),
                Response::ObservingEvents => actions::Response::example_observing_events(),
                Response::NewMessage => actions::Response::example_new_message(),
                Response::Observing => actions::Response::example_observing(),
                Response::ControlGranted => actions::Response::example_control_granted(),
                Response::ControlQueued => actions::Response::example_control_queue(),
            }),
        },
    }
}

} // verus!
