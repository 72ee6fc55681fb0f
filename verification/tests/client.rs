use serial_keel::actions::Response;
use serial_keel::client::{route_response, ClientReply, ClientRouting};
use serial_keel::endpoint::{EndpointId, LabelledEndpointId};
use serial_keel::error::Error;

#[test]
fn observing_makes_a_reader_only_once() {
    let id = LabelledEndpointId::new(&EndpointId::tty("COM1"));
    match route_response(Ok(Response::observing(id.clone())), &vec![]) {
        ClientRouting::Reply(ClientReply::Observing(ids)) => assert_eq!(ids, vec![id.clone()]),
        other => panic!("unexpected {other:?}"),
    }
    match route_response(Ok(Response::observing(id.clone())), &vec![id.clone()]) {
        ClientRouting::Reply(ClientReply::Observing(ids)) => assert!(ids.is_empty()),
        other => panic!("unexpected {other:?}"),
    }
}

#[test]
fn messages_go_to_their_reader() {
    let a = LabelledEndpointId::new(&EndpointId::tty("A"));
    let b = LabelledEndpointId::new(&EndpointId::tty("B"));
    match route_response(Ok(Response::message(b.clone(), vec![1, 2])), &vec![a, b]) {
        ClientRouting::ForwardMessage(i, m) => {
            assert_eq!(i, 1);
            assert_eq!(m, vec![1, 2]);
        }
        other => panic!("unexpected {other:?}"),
    }
}

#[test]
fn errors_and_direct_responses_go_to_the_user() {
    assert!(matches!(
        route_response(Err(Error::NoPermit("x".into())), &vec![]),
        ClientRouting::Failed(Error::NoPermit(_))
    ));
    assert!(matches!(
        route_response(Ok(Response::write_ok()), &vec![]),
        ClientRouting::Reply(ClientReply::WriteOk)
    ));
    assert!(matches!(
        route_response(Ok(Response::example_control_queue()), &vec![]),
        ClientRouting::Reply(ClientReply::Queued)
    ));
    match route_response(Ok(Response::example_control_granted()), &vec![]) {
        ClientRouting::Reply(ClientReply::Controlling(ids)) => assert_eq!(ids.len(), 2),
        other => panic!("unexpected {other:?}"),
    }
}
