use serial_keel::serial::serial_port::{
    error_text_means_busy, is_port_busy, next_wire_step, probe_means_disconnected, FlowControl,
    SerialPortBuilder, WireEvent, WireStep,
};
use serial_keel::serial::SerialMessage;
use serial_keel::serial::codecs::lines::LinesCodec;
use serial_keel::endpoint::{EndpointEvent, Label};

#[test]
fn lossy_messages_replace_bad_bytes() {
    assert_eq!(SerialMessage::new_lossy(b"abc").as_str(), "abc");
    assert_eq!(SerialMessage::new_lossy(b"a\xffc").as_str(), "a\u{FFFD}c");
}

#[test]
fn message_bytes_round_trip() {
    let m = SerialMessage::from_str("héllo");
    let bytes = m.clone().into_bytes();
    assert_eq!(bytes, "héllo".as_bytes().to_vec());
    assert_eq!(SerialMessage::new_lossy(&bytes), m);
}

#[test]
fn messages_are_shown_trimmed_and_short() {
    assert_eq!(SerialMessage::from_str("  padded \t\n").display(), "padded");
    let long = "x".repeat(60);
    assert_eq!(SerialMessage::from_str(&long).display(), "x".repeat(48));
    assert_eq!(SerialMessage::from_str("\u{3000}wide\u{a0}").display(), "wide");
}

#[test]
fn busy_ports_are_recognised() {
    assert!(error_text_means_busy("Device or resource busy"));
    assert!(error_text_means_busy("Access is DENIED."));
    assert!(!error_text_means_busy("No such file or directory"));
    assert!(is_port_busy(Some("Resource BUSY")));
    assert!(!is_port_busy(None));
    assert!(probe_means_disconnected(Some("No such file or directory")));
    assert!(!probe_means_disconnected(Some("busy")));
    assert!(!probe_means_disconnected(None));
}

#[test]
fn serial_port_settings_have_defaults() {
    let mut b = SerialPortBuilder::new("/dev/ttyUSB0");
    let s = b.settings();
    assert_eq!(s.baud, 115_200);
    assert_eq!(s.flow_control, FlowControl::Off);
    assert_eq!(s.path, "/dev/ttyUSB0");
    b.set_baud(9600);
    b.set_flow_control(FlowControl::Hardware);
    let s = b.settings();
    assert_eq!(s.baud, 9600);
    assert_eq!(s.flow_control, FlowControl::Hardware);
    let b = b.set_semaphore(3).add_label(Label::new("fast"));
    assert_eq!(b.semaphore(), Some(3));
    assert_eq!(b.labels().len(), 1);
    assert_eq!(b.codec().serial_port_path(), "/dev/ttyACM0");
}

#[test]
fn wire_steps() {
    assert!(matches!(next_wire_step(WireEvent::PleasePutThisOnWire(vec![1])), WireStep::Write(ref b) if b == &vec![1]));
    assert!(matches!(next_wire_step(WireEvent::Written(vec![1], true)), WireStep::Broadcast(EndpointEvent::ToWire(_))));
    assert!(matches!(next_wire_step(WireEvent::Written(vec![1], false)), WireStep::Reconnect));
    assert!(matches!(next_wire_step(WireEvent::ThisCameFromWire(vec![2])), WireStep::Broadcast(EndpointEvent::FromWire(_))));
    assert!(matches!(next_wire_step(WireEvent::ReadFailed), WireStep::Reconnect));
    assert!(matches!(next_wire_step(WireEvent::PortGone), WireStep::Reconnect));
}

#[test]
fn a_chosen_line_codec_is_kept() {
    let b = SerialPortBuilder::new("/dev/ttyUSB0")
        .set_line_codec(LinesCodec::new(b';', Some(b'\r'), "/dev/ttyUSB0".to_string()));
    assert_eq!(b.codec().serial_port_path(), "/dev/ttyUSB0");
    assert_eq!(b.semaphore(), None);
    assert!(b.labels().is_empty());
}
