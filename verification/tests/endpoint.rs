use serial_keel::endpoint::{EndpointId, Labels};

#[test]
fn ids_know_their_kind() {
    let tty = EndpointId::tty("/dev/ttyACM1");
    let mock = EndpointId::mock("mock-foo");
    assert_eq!(tty.as_tty().map(|s| s.as_str()), Some("/dev/ttyACM1"));
    assert_eq!(tty.as_mock(), None);
    assert_eq!(mock.as_mock().map(|s| s.as_str()), Some("mock-foo"));
    assert_eq!(mock.as_tty(), None);
    assert!(mock.is_mock());
    assert!(!tty.is_mock());
}

#[test]
fn a_label_set_holds_each_label_once() {
    let labels = Labels::from_strs(&["a", "b", "a", "c", "b"]);
    let set = labels.into_hash_set();
    let mut names: Vec<&str> = set.iter().map(|l| l.as_str()).collect();
    names.sort();
    assert_eq!(names, vec!["a", "b", "c"]);
    assert!(Labels::new().into_hash_set().is_empty());
}
