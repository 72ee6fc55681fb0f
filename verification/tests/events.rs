use serial_keel::events::user::Event;
use serial_keel::events::Events;
use serial_keel::user::User;

#[test]
fn the_log_keeps_the_newest_events_first() {
    let mut events = Events::new(2);
    let user = User::new("u");
    events.send_user_event(&user, Event::Connected);
    events.send_user_event(&user, Event::Disconnected);
    events.send_user_event(&user, Event::Connected);
    assert_eq!(events.len(), 2);
    let history = events.history();
    assert_eq!(history.len(), 2);
    assert_eq!(history[0].display(), "u: connected");
    assert_eq!(history[1].display(), "u: disconnected");
}

#[test]
fn a_log_of_size_zero_keeps_nothing() {
    let mut events = Events::new(0);
    let sent = events.send_user_event(&User::new("u"), Event::Connected);
    assert_eq!(events.len(), 0);
    assert_eq!(sent.display(), "u: connected");
}

#[test]
fn the_log_keeps_the_latest_events_newest_first() {
    let mut events = Events::new(3);
    for name in ["u1", "u2", "u3", "u4", "u5"] {
        events.send_user_event(&User::new(name), Event::Connected);
    }
    let shown: Vec<String> = events.history().iter().map(|e| e.display()).collect();
    assert_eq!(shown, vec!["u5: connected", "u4: connected", "u3: connected"]);

    let mut few = Events::new(10);
    for name in ["a", "b"] {
        few.send_user_event(&User::new(name), Event::Connected);
    }
    let shown: Vec<String> = few.history().iter().map(|e| e.display()).collect();
    assert_eq!(shown, vec!["b: connected", "a: connected"]);
}
