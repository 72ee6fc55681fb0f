use serial_keel::config::{Config, ConfigEndpoint, Group};
use serial_keel::control_center::{id_to_internal, ControlAnyDecision, ControlAttempt, ControlCenter, Effect, Inform, UserRequest};
use serial_keel::endpoint::{EndpointId, InternalEndpointId, Labels};
use serial_keel::error::Error;
use serial_keel::events::user::Event;
use serial_keel::mock::MockId;
use serial_keel::user::User;

fn cc() -> ControlCenter {
    let config = Config {
        auto_open_serial_ports: false,
        ..Config::default()
    };
    ControlCenter::new(&config, &vec![])
}

fn cc_with_tty(path: &str) -> ControlCenter {
    let config = Config {
        endpoints: vec![ConfigEndpoint {
            id: EndpointId::tty(path),
            labels: Labels::new(),
        }],
        auto_open_serial_ports: false,
        ..Config::default()
    };
    ControlCenter::new(&config, &vec![])
}

fn arrive(cc: &mut ControlCenter, name: &str) -> User {
    let user = User::new(name);
    let mut effects = vec![];
    cc.user_arrived(&user, &mut effects);
    user
}

fn emitted(effects: &[Effect]) -> Vec<&Event> {
    effects
        .iter()
        .filter_map(|e| match e {
            Effect::Emit(ue) => Some(&ue.event),
            _ => None,
        })
        .collect()
}

#[test]
fn control_center_observe_non_existing_mock_means_it_gets_created_by_cc() {
    let mut cc = cc();
    let user = arrive(&mut cc, "fooo");
    let mut effects = vec![];

    let response = cc.observe(
        &user,
        InternalEndpointId::Mock(MockId::new("user1", "mock")),
        &mut effects,
    );

    assert!(response.is_ok());
    assert!(matches!(effects[0], Effect::CreateMock(ref id, _) if *id == MockId::new("user1", "mock")));
}

#[test]
fn control_center_observe_non_existing_tty_id() {
    let mut cc = cc();
    let user = arrive(&mut cc, "foo");
    let mut effects = vec![];

    let response = cc.observe(&user, InternalEndpointId::Tty("/dev/tty1234".into()), &mut effects);

    assert!(matches!(response, Err(Error::NoSuchEndpoint(_))));
    assert_eq!(response.unwrap_err(), Error::NoSuchEndpoint("/dev/tty1234".into()));
    assert!(effects.is_empty());
}

#[test]
fn control_center_can_not_observe_mock_endpoint_several_times() {
    let mut cc = cc();
    let user = arrive(&mut cc, "Foo");
    let mock_endpoint = "FooMock";

    for i in 0..10 {
        let mut effects = vec![];
        let response = cc.observe(
            &user,
            InternalEndpointId::Mock(MockId::new("Foo", mock_endpoint)),
            &mut effects,
        );

        if i == 0 {
            assert!(response.is_ok());
        } else {
            assert!(matches!(response, Err(Error::SuperfluousRequest(_))));
        }
    }
}

#[test]
fn observing_twice_names_user_and_endpoint() {
    let mut cc = cc();
    let user = arrive(&mut cc, "Foo");
    let id = || InternalEndpointId::Mock(MockId::new("Foo", "m"));
    let mut effects = vec![];
    cc.observe(&user, id(), &mut effects).unwrap();
    let err = cc.observe(&user, id(), &mut effects).unwrap_err();
    assert_eq!(
        err,
        Error::SuperfluousRequest("`Foo` is already observing endpoint `mock: m`".into())
    );
}

#[test]
fn arriving_and_leaving_are_announced() {
    let mut cc = cc();
    let user = User::new("a");
    let mut effects = vec![];
    cc.user_arrived(&user, &mut effects);
    assert!(cc.knows_user(&user));
    cc.user_left(&user, &mut effects);
    assert!(!cc.knows_user(&user));
    let events = emitted(&effects);
    assert!(matches!(events[0], Event::Connected));
    assert!(matches!(events[events.len() - 1], Event::Disconnected));
}

#[test]
fn second_user_is_queued_and_gets_access_after_first_user_leaves() {
    let mut cc = cc_with_tty("COM1");
    let first = arrive(&mut cc, "first");
    let second = arrive(&mut cc, "second");
    let mut effects = vec![];

    // The first user asks and the group is free: they take it.
    let target = cc
        .control(&first, InternalEndpointId::Tty("COM1".into()), &mut effects)
        .unwrap();
    assert!(cc.can_take_control(&first, &target.group));
    cc.now_controlling(
        &first,
        &UserRequest::EndpointId(EndpointId::tty("COM1")),
        &target.group,
        &mut effects,
    );

    // The second user asks: the group is held, so they queue.
    let target_2 = cc
        .control(&second, InternalEndpointId::Tty("COM1".into()), &mut effects)
        .unwrap();
    assert_eq!(target_2.semaphore, target.semaphore);
    assert!(!cc.can_take_control(&second, &target_2.group));
    assert!(cc.can_enqueue(&second, &target_2.group));
    cc.enqueue(&second, &target_2.group, &mut effects);

    // Asking again is superfluous for both.
    assert!(matches!(
        cc.control(&first, InternalEndpointId::Tty("COM1".into()), &mut effects),
        Err(Error::SuperfluousRequest(_))
    ));
    assert!(matches!(
        cc.control(&second, InternalEndpointId::Tty("COM1".into()), &mut effects),
        Err(Error::SuperfluousRequest(_))
    ));

    // The first user leaves: the second can now take control.
    cc.user_left(&first, &mut effects);
    assert!(cc.can_take_control(&second, &target_2.group));
    cc.handle_information(
        Inform::NowControlling {
            user: second.clone(),
            request: UserRequest::EndpointId(EndpointId::tty("COM1")),
            got: target_2.group.clone(),
        },
        &mut effects,
    );
    assert!(!cc.can_take_control(&second, &target_2.group));
}

#[test]
fn unknown_labels_match_no_endpoint() {
    let cc = cc_with_tty("COM1");
    let labels = Labels::from_strs(&["blue"]);
    assert!(matches!(
        cc.control_any_candidates(&labels),
        Err(Error::NoMatchingEndpoints(_))
    ));
    assert!(matches!(
        cc.control_any_candidates(&Labels::new()),
        Err(Error::BadUsage(_))
    ));
}

#[test]
fn labelled_endpoints_are_candidates() {
    let config = Config {
        endpoints: vec![
            ConfigEndpoint {
                id: EndpointId::tty("COM1"),
                labels: Labels::from_strs(&["blue", "fast"]),
            },
            ConfigEndpoint {
                id: EndpointId::tty("COM2"),
                labels: Labels::from_strs(&["red"]),
            },
        ],
        auto_open_serial_ports: false,
        ..Config::default()
    };
    let cc = ControlCenter::new(&config, &vec![]);
    let found = cc.control_any_candidates(&Labels::from_strs(&["blue"])).unwrap();
    assert_eq!(found.len(), 1);
    assert_eq!(found[0].id, InternalEndpointId::Tty("COM1".into()));
}

#[test]
fn message_events_are_emitted() {
    let mut cc = cc_with_tty("COM1");
    let user = arrive(&mut cc, "u");
    let mut effects = vec![];
    let msg = serial_keel::serial::SerialMessage::from_str("hello");
    cc.handle_information(
        Inform::MessageSent((user.clone(), InternalEndpointId::Tty("COM1".into()), msg.clone())),
        &mut effects,
    );
    assert_eq!(effects.len(), 1);
    match &effects[0] {
        Effect::Emit(ue) => match &ue.event {
            Event::MessageSent((info, m)) => {
                assert_eq!(info.id, InternalEndpointId::Tty("COM1".into()));
                assert_eq!(m.as_str(), "hello");
            }
            other => panic!("unexpected {other:?}"),
        },
        other => panic!("unexpected {other:?}"),
    }
}

#[test]
fn subscribing_twice_is_bad_usage() {
    let mut cc = cc();
    let user = arrive(&mut cc, "u");
    assert!(cc.subscribe_to_user_events(&user).is_ok());
    assert_eq!(
        cc.subscribe_to_user_events(&user),
        Err(Error::BadUsage("User is already subscribed to user events".into()))
    );
}

#[test]
fn writing_needs_control() {
    let mut cc = cc_with_tty("COM1");
    let user = arrive(&mut cc, "w");
    let id = InternalEndpointId::Tty("COM1".into());
    assert_eq!(
        cc.write_permission(&user, &id),
        Err(Error::NoPermit("write tty: COM1".into()))
    );
    let mut effects = vec![];
    let target = cc.control(&user, InternalEndpointId::Tty("COM1".into()), &mut effects).unwrap();
    cc.now_controlling(&user, &UserRequest::EndpointId(EndpointId::tty("COM1")), &target.group, &mut effects);
    assert_eq!(cc.write_permission(&user, &id), Ok(()));
}

#[test]
fn mock_names_are_the_users_own() {
    let user = User::new("alice");
    assert_eq!(
        id_to_internal(&user, &EndpointId::mock("m")),
        InternalEndpointId::Mock(MockId::new("alice", "m"))
    );
    assert_eq!(
        id_to_internal(&user, &EndpointId::tty("COM3")),
        InternalEndpointId::Tty("COM3".into())
    );
}

#[test]
fn information_is_shown_in_the_log() {
    let user = User::new("u");
    assert_eq!(Inform::UserArrived(user.clone()).display(), "user arrived: u");
    assert_eq!(Inform::UserLeft(user.clone()).display(), "user left: u");
    assert_eq!(
        Inform::NowControlling {
            user: user.clone(),
            request: UserRequest::Labels(Labels::from_strs(&["a"])),
            got: vec![],
        }
        .display(),
        "u now controlling, ctx: a "
    );
    assert_eq!(
        Inform::MessageSent((user, InternalEndpointId::Tty("COM1".into()), serial_keel::serial::SerialMessage::from_str("hi"))).display(),
        "user u sent message hi via COM1"
    );
}

fn shared_cc() -> ControlCenter {
    let mut cc = cc();
    cc.set_share_mocks(true);
    cc
}

/// Ask control of a mock by name: granted when `free`, else queued.
fn ask(cc: &mut ControlCenter, user: &User, name: &str, free: bool) -> (ControlAttempt, Vec<serial_keel::endpoint::InternalEndpointInfo>) {
    let mut effects = vec![];
    let id = cc.internal_id(user, &EndpointId::mock(name));
    let target = cc.control(user, id, &mut effects).unwrap();
    let attempt = cc.attempt_control(user, &target, free, &mut effects);
    if let ControlAttempt::Granted = attempt {
        cc.now_controlling(user, &UserRequest::EndpointId(EndpointId::mock(name)), &target.group, &mut effects);
    }
    (attempt, target.group)
}

#[test]
fn mocks_are_each_users_own_unless_shared() {
    let mut cc = cc();
    let a = arrive(&mut cc, "a");
    let b = arrive(&mut cc, "b");
    let mut effects = vec![];
    let ida = cc.internal_id(&a, &EndpointId::mock("m"));
    cc.observe(&a, ida.clone(), &mut effects).unwrap();
    assert_ne!(cc.internal_id(&b, &EndpointId::mock("m")), ida);

    let mut cc = shared_cc();
    let a = arrive(&mut cc, "a");
    let b = arrive(&mut cc, "b");
    let ida = cc.internal_id(&a, &EndpointId::mock("m"));
    assert_eq!(ida, InternalEndpointId::Mock(MockId::new("a", "m")));
    cc.observe(&a, ida.clone(), &mut effects).unwrap();
    assert_eq!(cc.internal_id(&b, &EndpointId::mock("m")), ida);
    assert_eq!(cc.internal_id(&b, &EndpointId::tty("COM1")), InternalEndpointId::Tty("COM1".into()));
}

#[test]
fn second_user_is_queued() {
    let mut cc = shared_cc();
    let first = arrive(&mut cc, "first");
    let second = arrive(&mut cc, "second");
    let (attempt, group) = ask(&mut cc, &first, "queue", true);
    assert!(matches!(attempt, ControlAttempt::Granted));
    assert!(!cc.can_take_control(&second, &group));
    let (attempt, queued) = ask(&mut cc, &second, "queue", false);
    let ids = |g: &Vec<serial_keel::endpoint::InternalEndpointInfo>| g.iter().map(|i| i.id.clone()).collect::<Vec<_>>();
    match attempt {
        ControlAttempt::Queued(ref g) => assert_eq!(ids(g), ids(&group)),
        _ => panic!("expected to be queued"),
    }
    assert_eq!(ids(&queued), ids(&group));
}

#[test]
fn second_user_gets_access_after_first_user_leaves() {
    let mut cc = shared_cc();
    let first = arrive(&mut cc, "first");
    let second = arrive(&mut cc, "second");
    let (_, group) = ask(&mut cc, &first, "queue-then-leave", true);
    ask(&mut cc, &second, "queue-then-leave", false);
    assert!(!cc.can_take_control(&second, &group));
    let mut effects = vec![];
    cc.user_left(&first, &mut effects);
    assert!(cc.can_take_control(&second, &group));
}

#[test]
fn three_users_control_granted_in_order() {
    let mut cc = shared_cc();
    let u1 = arrive(&mut cc, "one");
    let u2 = arrive(&mut cc, "two");
    let u3 = arrive(&mut cc, "three");
    let (_, group) = ask(&mut cc, &u1, "queue-three-users", true);
    ask(&mut cc, &u2, "queue-three-users", false);
    ask(&mut cc, &u3, "queue-three-users", false);
    let mut effects = vec![];
    cc.user_left(&u1, &mut effects);
    assert!(cc.can_take_control(&u2, &group));
    cc.now_controlling(&u2, &UserRequest::EndpointId(EndpointId::mock("queue-three-users")), &group, &mut effects);
    assert!(!cc.can_take_control(&u3, &group));
    cc.user_left(&u2, &mut effects);
    assert!(cc.can_take_control(&u3, &group));
}

#[test]
fn three_users_but_queued_user_leaves() {
    let mut cc = shared_cc();
    let u1 = arrive(&mut cc, "one");
    let u2 = arrive(&mut cc, "two");
    let u3 = arrive(&mut cc, "three");
    let (_, group) = ask(&mut cc, &u1, "queue-three-users", true);
    ask(&mut cc, &u2, "queue-three-users", false);
    ask(&mut cc, &u3, "queue-three-users", false);
    let mut effects = vec![];
    cc.user_left(&u2, &mut effects);
    assert!(!cc.can_take_control(&u3, &group));
    cc.user_left(&u1, &mut effects);
    assert!(cc.can_take_control(&u3, &group));
}

#[test]
fn an_endpoint_configured_alone_and_in_a_group_keeps_both_labels() {
    let cc = ControlCenter::new(&Config::example(), &vec![]);
    let found = cc.control_any_candidates(&Labels::from_strs(&["device-type-1"])).unwrap();
    assert_eq!(found.len(), 1);
    assert_eq!(found[0].id, InternalEndpointId::Tty("COM1".into()));
    let mut cc = cc;
    let user = arrive(&mut cc, "u");
    let mut effects = vec![];
    let target = cc.control(&user, InternalEndpointId::Tty("COM1".into()), &mut effects).unwrap();
    assert_eq!(target.group.len(), 3);
}

#[test]
fn a_found_port_in_a_group_stays_in_the_group() {
    let config = Config {
        groups: vec![Group::new(vec![EndpointId::tty("COM0"), EndpointId::tty("COM1")])],
        auto_open_serial_ports: true,
        ..Config::default()
    };
    let mut cc = ControlCenter::new(&config, &vec!["COM0".to_string(), "COM9".to_string()]);
    let user = arrive(&mut cc, "u");
    let mut effects = vec![];
    let target = cc.control(&user, InternalEndpointId::Tty("COM0".into()), &mut effects).unwrap();
    let ids: Vec<InternalEndpointId> = target.group.iter().map(|i| i.id.clone()).collect();
    assert_eq!(ids, vec![InternalEndpointId::Tty("COM0".into()), InternalEndpointId::Tty("COM1".into())]);
    assert!(cc.control(&user, InternalEndpointId::Tty("COM9".into()), &mut effects).is_ok());
}

#[test]
fn mock_groups_are_set_up_under_their_owner() {
    let config = Config {
        groups: vec![
            Group::new_with_labels(&["mocks"], vec![EndpointId::mock("a"), EndpointId::mock("b")]),
            Group::new(vec![EndpointId::mock("c")]),
        ],
        auto_open_serial_ports: false,
        ..Config::default()
    };
    let mut cc = ControlCenter::new(&config, &vec![]);
    let user = arrive(&mut cc, "u");
    let mut effects = vec![];
    let a = cc.control(&user, InternalEndpointId::Mock(MockId::new("MockGroup0", "a")), &mut effects).unwrap();
    let c = cc.control(&user, InternalEndpointId::Mock(MockId::new("MockGroup1", "c")), &mut effects).unwrap();
    assert_eq!(a.semaphore, 0);
    assert_eq!(c.semaphore, 1);
    assert_eq!(a.group.len(), 2);
    assert_eq!(a.info.labels.as_ref().map(|l| l.len()), Some(1));
    assert_eq!(c.info.labels, None);
    assert!(effects.iter().all(|e| !matches!(e, Effect::CreateMock(..))));
}

fn labelled_pair() -> ControlCenter {
    let config = Config {
        groups: vec![
            Group::new_with_labels(&["combo"], vec![EndpointId::tty("A0"), EndpointId::tty("A1")]),
            Group::new_with_labels(&["combo"], vec![EndpointId::tty("B0")]),
        ],
        auto_open_serial_ports: false,
        ..Config::default()
    };
    ControlCenter::new(&config, &vec![])
}

#[test]
fn control_any_takes_the_first_free_group() {
    let mut cc = labelled_pair();
    let user = arrive(&mut cc, "u");
    let mut effects = vec![];
    let (decision, attempts) = cc.control_any(&user, &Labels::from_strs(&["combo"]), &vec![false, true], &mut effects);
    assert!(matches!(decision, Ok(ControlAnyDecision::Granted(1))));
    assert!(matches!(attempts[0], ControlAttempt::Queued(_)));
    assert!(matches!(attempts[1], ControlAttempt::Granted));
}

#[test]
fn control_any_queues_for_every_busy_group() {
    let mut cc = labelled_pair();
    let user = arrive(&mut cc, "u");
    let mut effects = vec![];
    let (decision, _) = cc.control_any(&user, &Labels::from_strs(&["combo"]), &vec![false, false], &mut effects);
    match decision {
        Ok(ControlAnyDecision::Queued(q)) => {
            let ids: Vec<InternalEndpointId> = q.iter().map(|i| i.id.clone()).collect();
            assert_eq!(ids, vec![
                InternalEndpointId::Tty("A0".into()),
                InternalEndpointId::Tty("A1".into()),
                InternalEndpointId::Tty("B0".into()),
            ]);
        }
        _ => panic!("expected a queue"),
    }
    // Asking again: every candidate is queued for already, so every attempt fails.
    let (again, attempts) = cc.control_any(&user, &Labels::from_strs(&["combo"]), &vec![false, false], &mut effects);
    assert!(matches!(again, Err(Error::BadUsage(_))));
    assert!(attempts.iter().all(|a| matches!(a, ControlAttempt::Failed(Error::SuperfluousRequest(_)))));
}

#[test]
fn control_any_without_labels_or_matches_is_refused() {
    let mut cc = labelled_pair();
    let user = arrive(&mut cc, "u");
    let mut effects = vec![];
    let (r, a) = cc.control_any(&user, &Labels::new(), &vec![], &mut effects);
    assert!(matches!(r, Err(Error::BadUsage(_))) && a.is_empty());
    let (r, _) = cc.control_any(&user, &Labels::from_strs(&["none"]), &vec![], &mut effects);
    assert!(matches!(r, Err(Error::NoMatchingEndpoints(_))));
}

#[test]
fn configured_endpoints_stay_when_users_leave_but_on_demand_mocks_go() {
    let config = Config {
        endpoints: vec![
            ConfigEndpoint { id: EndpointId::tty("COM1"), labels: Labels::new() },
            ConfigEndpoint { id: EndpointId::mock("configured"), labels: Labels::new() },
        ],
        auto_open_serial_ports: false,
        ..Config::default()
    };
    let mut cc = ControlCenter::new(&config, &vec![]);
    let user = arrive(&mut cc, "u");
    let mut effects = vec![];
    cc.observe(&user, InternalEndpointId::Tty("COM1".into()), &mut effects).unwrap();
    let mine = cc.internal_id(&user, &EndpointId::mock("mine"));
    cc.observe(&user, mine.clone(), &mut effects).unwrap();
    let mut effects = vec![];
    cc.user_left(&user, &mut effects);
    let removed: Vec<&InternalEndpointId> = effects
        .iter()
        .filter_map(|e| match e {
            Effect::RemoveEndpoint(id) => Some(id),
            _ => None,
        })
        .collect();
    assert_eq!(removed, vec![&mine]);
    assert!(cc.endpoint_position(&InternalEndpointId::Tty("COM1".into())).is_some());
    assert!(cc.endpoint_position(&InternalEndpointId::Mock(MockId::new("MockFromConfig", "configured"))).is_some());
    assert!(cc.endpoint_position(&mine).is_none());
}
