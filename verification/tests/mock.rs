use std::collections::HashSet;

use serial_keel::mock::MockId;

#[test]
fn mock_test_mocks_eq_when_users_eq() {
    let user = "foo";
    let endpoint = "mock";

    assert_eq!(MockId::new(user, endpoint), MockId::new(user, endpoint));
}

#[test]
fn test_mocks_ne_when_users_ne() {
    let user_1 = "foo";
    let user_2 = "bar";

    let endpoint = "mock";

    // These are **not** equal: the users differ.
    assert_ne!(MockId::new(user_1, endpoint), MockId::new(user_2, endpoint));
}

#[test]
fn test_mocks_hash_ne_when_users_ne() {
    let user_1 = "foo";
    let user_2 = "bar";

    let endpoint = "mock";

    let mut h = HashSet::new();

    h.insert(MockId::new(user_1, endpoint));

    // Does NOT contain: the users differ.
    assert!(!h.contains(&MockId::new(user_2, endpoint)));
}
