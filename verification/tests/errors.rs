use serial_keel::config::Config;
use serial_keel::endpoint::Labels;
use serial_keel::error::Error;

#[test]
fn every_error_has_a_message() {
    assert_eq!(Error::NoSuchEndpoint("COM9".into()).message(), "The endpoint `COM9` does not exist");
    assert_eq!(
        Error::BadJson { request: "{".into(), problem: "EOF".into() }.message(),
        "The request `{` could not be deserialized. Problem: EOF"
    );
    assert_eq!(Error::NoPermit("write tty: COM1".into()).message(), "No permit: write tty: COM1");
    assert_eq!(
        Error::SuperfluousRequest("again".into()).message(),
        "The request was superfluous. Problem: `again`"
    );
    assert_eq!(
        Error::BadUsage("no".into()).message(),
        "The request did not conform to valid usage. Problem: `no`"
    );
    assert_eq!(
        Error::BadConfig("bad".into()).message(),
        "The server configuration is not valid. Problem: `bad`"
    );
    assert_eq!(
        Error::NoMatchingEndpoints(Labels::from_strs(&["a", "b"])).message(),
        "No endpoints match the labels: a b "
    );
    assert_eq!(Error::WebsocketIssue("closed".into()).message(), "Websocket issue: closed");
    assert_eq!(Error::InternalIssue("oops".into()).message(), "Internal issue: oops");
}

#[test]
fn only_bad_config_turns_into_its_message() {
    assert_eq!(Error::BadConfig("x".into()).try_into_bad_config(), Ok("x".to_string()));
    assert_eq!(
        Error::BadUsage("x".into()).try_into_bad_config(),
        Err(Error::BadUsage("x".into()))
    );
}

#[test]
fn the_example_configuration_is_valid() {
    let c = Config::example();
    assert!(c.validate().is_ok());
    assert!(c.auto_open_serial_ports);
    assert!(Config::default().validate().is_ok());
}
