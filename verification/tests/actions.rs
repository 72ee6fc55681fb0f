use serial_keel::actions::{Action, Async, Response, Sync};
use serial_keel::cli::{handle_command, session, CommandOutput, Commands, Examples, Request, SessionLine};
use serial_keel::endpoint::{EndpointId, LabelledEndpointId};
use serial_keel::serial::SerialMessage;

#[test]
fn examples_hold_what_their_docs_say() {
    assert!(matches!(Action::example_control_mock(), Action::Control(EndpointId::Mock(ref m)) if m == "some-mock"));
    assert!(matches!(Action::example_control_tty(), Action::Control(EndpointId::Tty(ref t)) if t == "/dev/ttyACM123"));
    assert!(matches!(Action::example_observe_tty(), Action::Observe(EndpointId::Tty(ref t)) if t == "/dev/ttyACM123"));
    assert!(matches!(Action::example_observe_mock(), Action::Observe(EndpointId::Mock(ref m)) if m == "some-mock"));
    assert!(matches!(Action::example_observe_events(), Action::ObserveEvents));
    match Action::example_write_bytes() {
        Action::WriteBytes((EndpointId::Mock(m), bytes)) => {
            assert_eq!(m, "/mock/ttyACMx");
            assert_eq!(bytes, b"This is a message".to_vec());
        }
        other => panic!("unexpected {other:?}"),
    }
    match Action::example_control_any() {
        Action::ControlAny(labels) => {
            let names: Vec<&str> = labels.iter().iter().map(|l| l.as_str()).collect();
            assert_eq!(names, vec!["my-label", "blue-device"]);
        }
        other => panic!("unexpected {other:?}"),
    }
}

#[test]
fn actions_are_shown_to_people() {
    assert_eq!(Action::control_tty("COM1").display(), "control: tty: COM1");
    assert_eq!(Action::observe_mock("m").display(), "observe: mock: m");
    assert_eq!(
        Action::write(&EndpointId::tty("COM1"), SerialMessage::from_str("  hi there \n")).display(),
        "write: tty: COM1, msg: hi there"
    );
    assert_eq!(Action::control_any(&["a", "b"]).display(), "control any: a b ");
    let bytes: Vec<u8> = (0u8..20).collect();
    assert_eq!(
        Action::write_bytes(&EndpointId::mock("m"), bytes).display(),
        "write: mock: m, msg: [[0, 1, 2, 3, 4, 5, 6, 7, 8, 9, 10, 11, 12, 13, 14, 15]].."
    );
    assert_eq!(Action::observe_events().display(), "observe events");
}

#[test]
fn responses_are_shown_to_people() {
    assert_eq!(Response::example_write_ok().display(), "Write ok");
    assert_eq!(Response::example_observing_events().display(), "User events subscription ok");
    assert_eq!(
        Response::example_observing().display(),
        "Observing tty: /dev/ttyACM1, labels: secure "
    );
    assert_eq!(
        Response::example_control_granted().display(),
        "Control granted for tty: COM0tty: /dev/ttyACMx, labels: device-type-1 server-room-foo "
    );
    assert_eq!(
        Response::message(LabelledEndpointId::new(&EndpointId::tty("COM0")), vec![72, 105]).display(),
        "Message from tty: COM0: `[[72, 105]..]`"
    );
}

#[test]
fn example_responses() {
    match Response::example_new_message() {
        Response::Async(Async::Message { endpoint, message }) => {
            assert_eq!(endpoint, LabelledEndpointId::new(&EndpointId::tty("COM0")));
            assert_eq!(message, b"Hello World!".to_vec());
        }
        other => panic!("unexpected {other:?}"),
    }
    match Response::example_control_queue() {
        Response::Sync(Sync::ControlQueue(ids)) => {
            assert_eq!(ids.len(), 2);
            assert_eq!(ids[0], LabelledEndpointId::new(&EndpointId::tty("COM0")));
            assert_eq!(
                ids[1],
                LabelledEndpointId::new_with_labels(
                    &EndpointId::tty("/dev/ttyACMx"),
                    &["device-type-1", "server-room-foo"]
                )
            );
        }
        other => panic!("unexpected {other:?}"),
    }
}

#[test]
fn commands_pick_their_examples() {
    match handle_command(Commands::Examples(Examples::Request(Request::ControlTty))) {
        CommandOutput::Request(Action::Control(EndpointId::Tty(t))) => assert_eq!(t, "/dev/ttyACM123"),
        other => panic!("unexpected {other:?}"),
    }
    match handle_command(Commands::Examples(Examples::Response(serial_keel::cli::Response::WriteOk))) {
        CommandOutput::OkResponse(Response::Sync(Sync::WriteOk)) => {}
        other => panic!("unexpected {other:?}"),
    }
    match handle_command(Commands::Examples(Examples::Config)) {
        CommandOutput::Config(c) => {
            assert_eq!(c.groups.len(), 2);
            assert_eq!(c.endpoints.len(), 2);
            assert!(c.validate().is_ok());
        }
        other => panic!("unexpected {other:?}"),
    }
}

#[test]
fn the_session_script() {
    let lines = session();
    assert_eq!(lines.len(), 28);
    assert!(matches!(&lines[0], SessionLine::Comment(c) if c.starts_with("Example session.")));
    assert!(matches!(&lines[3], SessionLine::Request(Action::Control(EndpointId::Tty(t))) if t == "/dev/ttyACM0"));
    assert!(matches!(&lines[25], SessionLine::Response(Response::Sync(Sync::WriteOk))));
}
