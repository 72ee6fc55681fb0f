use serial_keel::events::user::{Event, UserEvent};
use serial_keel::events::Timestamp;
use serial_keel::frontend::{
    human_readable_absolute, parse_port, BarPosition, Server, ServerConnectState, TimeDisplaySetting, UserEventState,
    UserEventsTabMessage,
};
use serial_keel::user::User;

fn at(secs: i64) -> Timestamp {
    Timestamp { secs, nanos: 0 }
}

fn ev(user: &str, event: Event) -> UserEvent {
    UserEvent { user: User::new(user), event }
}

#[test]
fn users_are_listed_by_name_with_their_counts() {
    let mut s = UserEventState::new();
    s.record(ev("bob", Event::Connected), at(1));
    s.record(ev("alice", Event::Connected), at(2));
    s.record(ev("bob", Event::Disconnected), at(3));
    let names: Vec<String> = s.users().iter().map(|u| u.display()).collect();
    assert_eq!(names, vec!["alice".to_string(), "bob".to_string()]);
    assert_eq!(s.num_user_events(&User::new("bob")), 2);
    assert_eq!(s.num_user_events(&User::new("carol")), 0);
    assert_eq!(s.user_and_num_events(&User::new("bob")), "bob (2)");
    assert_eq!(s.first_event(&User::new("bob")), Some(at(1)));
    assert_eq!(s.first_event(&User::new("carol")), None);
}

#[test]
fn only_the_latest_hundred_events_are_shown() {
    let mut s = UserEventState::new();
    assert!(s.events().is_empty());
    for i in 0..150 {
        s.record(ev("u", Event::Connected), at(i));
    }
    s.select_user(User::new("u"));
    let shown = s.events();
    assert_eq!(shown.len(), 100);
    assert_eq!(shown[0].timestamp, at(50));
    assert_eq!(shown[99].timestamp, at(149));
}

#[test]
fn settings_and_labels() {
    let mut s = UserEventState::new();
    assert_eq!(s.time_display_setting(), TimeDisplaySetting::Absolute);
    assert_eq!(s.font_size(), 18);
    s.set_time_display_setting(TimeDisplaySetting::Hidden);
    s.set_font_size(12);
    assert_eq!(s.time_display_setting(), TimeDisplaySetting::Hidden);
    assert_eq!(s.font_size(), 12);
    let labels: Vec<String> = TimeDisplaySetting::all().into_iter().map(|t| t.label()).collect();
    assert_eq!(labels, vec!["Absolute", "Relative", "None"]);
    let labels: Vec<String> = BarPosition::all().into_iter().map(|b| b.label()).collect();
    assert_eq!(labels, vec!["Top", "Bottom"]);
    assert_eq!(BarPosition::default(), BarPosition::Top);
}

#[test]
fn ports_are_read_as_u16_reads_them() {
    assert_eq!(parse_port("8080"), Some(8080));
    assert_eq!(parse_port("+22"), Some(22));
    assert_eq!(parse_port("65535"), Some(65535));
    assert_eq!(parse_port("0065535"), Some(65535));
    assert_eq!(parse_port("65536"), None);
    assert_eq!(parse_port(""), None);
    assert_eq!(parse_port("+"), None);
    assert_eq!(parse_port("-1"), None);
    assert_eq!(parse_port("12a"), None);
    for text in ["8080", "+22", "65536", "", "+", "-1", "99999999999"] {
        assert_eq!(parse_port(text), text.parse::<u16>().ok());
    }
}

#[test]
fn connect_form_is_valid_with_address_and_port() {
    let mut form = ServerConnectState::new();
    assert!(!form.port_id_valid());
    form.set_ip(Some("127.0.0.1".to_string()), true);
    form.set_port(Some("99999".to_string()));
    assert!(!form.port_id_valid());
    form.set_port(Some("8080".to_string()));
    assert!(form.port_id_valid());
}

#[test]
fn times_of_day_are_shown_as_chrono_shows_them() {
    assert_eq!(human_readable_absolute(&Timestamp { secs: 3723, nanos: 456_789_000 }), "01:02:03.456");
    assert_eq!(human_readable_absolute(&Timestamp { secs: -1, nanos: 0 }), "23:59:59.000");
    for (secs, nanos) in [(0i64, 0u32), (86_399, 999_999_999), (1_700_000_000, 123_000_000), (-86_401, 5_000_000)] {
        let expected = chrono::DateTime::from_timestamp(secs, nanos)
            .unwrap()
            .time()
            .format("%H:%M:%S%.3f")
            .to_string();
        assert_eq!(human_readable_absolute(&Timestamp { secs, nanos }), expected);
    }
}

#[test]
fn the_tab_takes_in_messages() {
    let mut s = UserEventState::new();
    s.update(UserEventsTabMessage::UserEvent((ev("u", Event::Connected), at(5))));
    s.update(UserEventsTabMessage::UserSelected(User::new("u")));
    s.update(UserEventsTabMessage::FontSizeChanged(20));
    s.update(UserEventsTabMessage::TimeDisplaySettingChanged(TimeDisplaySetting::Relative));
    assert_eq!(s.events().len(), 1);
    assert_eq!(s.font_size(), 20);
    assert_eq!(s.time_display_setting(), TimeDisplaySetting::Relative);
}

#[test]
fn a_stand_in_server_is_alive_with_nothing_configured() {
    let s = Server::new_mock();
    assert!(s.connection.alive);
    assert!(s.config.endpoints.is_empty());
    assert!(s.config.groups.is_empty());
}
