use serial_keel::config::{Config, Group};
use serial_keel::endpoint::EndpointId;

#[test]
fn config_bad_config_duplicates() {
    let g1 = vec![
        EndpointId::tty("COM0"),
        EndpointId::tty("COM1"),
        EndpointId::tty("COM2"),
        EndpointId::tty("COM3"),
        EndpointId::tty("COM4"),
        EndpointId::tty("COM5"),
        EndpointId::tty("COM6"),
    ];

    let g2 = vec![
        EndpointId::tty("COM10"),
        EndpointId::tty("COM11"),
        EndpointId::tty("COM4"), // Duplicate!
        EndpointId::tty("COM5"), // Duplicate!
        EndpointId::tty("COM12"),
    ];

    let c = Config {
        groups: vec![Group::new(g1), Group::new(g2)],
        ..Config::default()
    };

    let err = c.validate().unwrap_err().try_into_bad_config().unwrap();

    // The error message names the duplicates, and only them.
    assert!(!err.contains("COM11"));

    assert!(err.contains("COM4"));
    assert!(err.contains("COM5"));
}

#[test]
fn config_bad_config_empty() {
    let g1 = vec![EndpointId::tty("COM0")];

    let g2 = vec![EndpointId::tty("COM2")];

    let g3 = vec![];

    let c = Config {
        groups: vec![Group::new(g1), Group::new(g2), Group::new(g3)],
        ..Config::default()
    };

    let err = c.validate().unwrap_err().try_into_bad_config().unwrap();

    // The error message holds the index of the bad group.
    assert!(err.contains("index 2"));
}

#[test]
fn config_bad_config_homogeneity() {
    let g1 = vec![EndpointId::tty("COM0")];
    let g2 = vec![EndpointId::mock("Mock0")];
    let g3 = vec![EndpointId::mock("Mock1"), EndpointId::tty("COM1")];

    let c = Config {
        groups: vec![Group::new(g1), Group::new(g2), Group::new(g3)],
        ..Config::default()
    };

    let err = c.validate().unwrap_err().try_into_bad_config().unwrap();

    // The error message mentions the members of the problematic group.
    assert!(err.contains("Mock1"));
    assert!(err.contains("COM1"));
}
