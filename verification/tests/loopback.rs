use serial_keel::endpoint::{EndpointEvent, Label};
use serial_keel::mock::{loopback, MockBuilder, MockId};

fn lines(events: Vec<EndpointEvent>) -> Vec<Vec<u8>> {
    let mut out = vec![];
    let mut it = events.into_iter();
    while let Some(to) = it.next() {
        let from = it.next().unwrap();
        let to = to.into_to_wire().unwrap();
        let from = from.into_from_wire().unwrap();
        assert_eq!(to, from);
        out.push(from);
    }
    out
}

#[test]
fn loopback_sends_a_line_back() {
    assert_eq!(lines(loopback(b"Hi")), vec![b"Hi".to_vec()]);
}

#[test]
fn newlines_are_split_up() {
    let sent = "This is a
message with a newline
or two.";
    let expected: Vec<Vec<u8>> = ["This is a", "message with a newline", "or two."]
        .iter()
        .map(|m| m.as_bytes().to_vec())
        .collect();
    assert_eq!(lines(loopback(sent.as_bytes())), expected);

    assert_eq!(
        lines(loopback(b"one\ntwo\r\nthree\n")),
        vec![b"one".to_vec(), b"two".to_vec(), b"three".to_vec()]
    );
    assert_eq!(lines(loopback(b"a\n\nb")), vec![b"a".to_vec(), b"".to_vec(), b"b".to_vec()]);
    assert_eq!(lines(loopback(b"")), Vec::<Vec<u8>>::new());
    assert_eq!(lines(loopback(b"\n")), vec![b"".to_vec()]);
    assert_eq!(lines(loopback(b"end\r")), vec![b"end\r".to_vec()]);
}

#[test]
fn list_of_messages() {
    let messages = ["one", "two", "three"];
    let mut received = vec![];
    for msg in messages {
        received.extend(lines(loopback(msg.as_bytes())));
    }
    let expected: Vec<Vec<u8>> = messages.iter().map(|m| m.as_bytes().to_vec()).collect();
    assert_eq!(received, expected);
}

#[test]
fn bad_utf8_is_replaced_in_loopback() {
    assert_eq!(lines(loopback(b"a\xffb")), vec!["a\u{FFFD}b".as_bytes().to_vec()]);
}

#[test]
fn mock_builder_collects_labels() {
    let b = MockBuilder::new(MockId::new("u", "m"))
        .set_semaphore(7)
        .add_label(Label::new("x"))
        .add_label(Label::new("y"));
    assert_eq!(b.semaphore, Some(7));
    let names: Vec<&str> = b.labels.as_ref().unwrap().iter().iter().map(|l| l.as_str()).collect();
    assert_eq!(names, vec!["x", "y"]);
}
