use vstd::prelude::*;

use crate::control_center::{
    ControlCenterView, ControlTargetView, EffectView, UserRequestView, UserStateView, can_take_control,
    cc_wf, contains_info_id, control_exclusive, emit, entry_matches, entry_of, has_endpoint,
    has_user, info_of, is_dangling, kept_endpoints, label_matches, model_control,
    model_enqueue, model_now_controlling, model_observe, model_release_queue, model_take_control,
    model_user_left, may_write, no_such_endpoint, resolve_id, has_mock_named, first_mock_named, is_mock_named, model_attempt, ControlAttemptView, semaphore_matched, semaphore_free, semaphore_members, state_of, user_index,
    user_names_unique, with_mock, with_state,
};
use crate::config::{ConfigEndpointView, ConfigView, GroupView, config_valid, duplicates, group_ids, group_is_mixed, member_ids, occurrences};
use crate::control_center::{
    RegisteredView, endpoint_ids_unique, endpoint_index, group_member_id, model_from_config, register_alone,
    register_config_endpoints, register_groups, register_members, register_ports, registry_insert,
};
use crate::endpoint::{EndpointIdView, InternalEndpointIdView, InternalEndpointInfoView, labels_superset};
use crate::error::ErrorView;
use crate::events::user::EventView;
use crate::mock::MockIdView;

verus! {

/// With unique names, the position of a connected user is the one holding their name.
proof fn lemma_user_index(us: Seq<crate::control_center::UserEntryView>, name: Seq<char>, k: int)
    requires
        user_names_unique(us),
        0 <= k < us.len(),
        us[k].name == name,
    ensures
        user_index(us, name) == k,
{
    let j = user_index(us, name);
    assert(0 <= j < us.len() && us[j].name == name);
    if j != k {
        assert(us[j].name != us[k].name);
    }
}

/// Replacing the state of a connected user: the user is still there with the new
/// state, names stay unique, and every other user keeps their state.
pub(crate) proof fn lemma_with_state(s: ControlCenterView, name: Seq<char>, st: UserStateView)
    requires
        user_names_unique(s.users),
        has_user(s.users, name),
    ensures
        has_user(with_state(s, name, st).users, name),
        user_names_unique(with_state(s, name, st).users),
        state_of(with_state(s, name, st), name) == st,
        with_state(s, name, st).endpoints == s.endpoints,
        forall|other: Seq<char>|
            #![trigger state_of(with_state(s, name, st), other)]
            #![trigger has_user(with_state(s, name, st).users, other)]
            other != name && has_user(s.users, other) ==>
            has_user(with_state(s, name, st).users, other)
            && state_of(with_state(s, name, st), other) == state_of(s, other),
{
    let k = user_index(s.users, name);
    let t = with_state(s, name, st);
    assert(t.users[k].name == name);
    assert forall|i: int, j: int|
        #![trigger t.users[i], t.users[j]]
        0 <= i < t.users.len() && 0 <= j < t.users.len() && i != j implies t.users[i].name != t.users[j].name by {
        assert(t.users[i].name == s.users[i].name);
        assert(t.users[j].name == s.users[j].name);
    }
    lemma_user_index(t.users, name, k);
    assert forall|other: Seq<char>|
        #![trigger state_of(with_state(s, name, st), other)]
        #![trigger has_user(with_state(s, name, st).users, other)]
        other != name && has_user(s.users, other) implies
        has_user(with_state(s, name, st).users, other)
        && state_of(with_state(s, name, st), other) == state_of(s, other) by {
        let o = user_index(s.users, other);
        assert(0 <= o < s.users.len() && s.users[o].name == other);
        assert(o != k);
        assert(t.users[o] == s.users[o]);
        lemma_user_index(t.users, other, o);
        assert(has_user(t.users, other));
        assert(state_of(t, other) == t.users[o].state);
    }
}

/// Making sure a mock exists changes no user, and afterwards an endpoint known
/// before is still known.
proof fn lemma_with_mock(s: ControlCenterView, id: InternalEndpointIdView)
    ensures
        with_mock(s, id).users == s.users,
        has_endpoint(s.endpoints, id) ==> with_mock(s, id) == s,
{
}

/// The group guarded by a semaphore holds the info of each endpoint it guards.
proof fn lemma_semaphore_members(eps: Seq<crate::control_center::RegisteredView>, sem: u64, i: int)
    requires
        0 <= i < eps.len(),
        eps[i].semaphore == sem,
    ensures
        semaphore_members(eps, sem).contains(eps[i].info),
    decreases eps.len(),
{
    if i == eps.len() - 1 {
        assert(semaphore_members(eps, sem).last() == eps[i].info);
    } else {
        lemma_semaphore_members(eps.drop_last(), sem, i);
        let sub = semaphore_members(eps.drop_last(), sem);
        let w = choose|w: int| 0 <= w < sub.len() && sub[w] == eps[i].info;
        if eps.last().semaphore == sem {
            assert(semaphore_members(eps, sem)[w] == eps[i].info);
        }
    }
}

/// At most one user controls an endpoint: in a well-formed control center no
/// two users hold the semaphore guarding it. Every operation of the control
/// center keeps it well formed.
pub proof fn law_control_is_exclusive(s: ControlCenterView, i: int, j: int, id: InternalEndpointIdView)
    requires
        cc_wf(s),
        0 <= i < s.users.len(),
        0 <= j < s.users.len(),
        i != j,
        has_endpoint(s.endpoints, id),
    ensures
        !(s.users[i].state.in_control_of.contains(entry_of(s, id).semaphore)
            && s.users[j].state.in_control_of.contains(entry_of(s, id).semaphore)),
{
    let sem = entry_of(s, id).semaphore;
    if s.users[i].state.in_control_of.contains(sem) {
        assert(control_exclusive(s.users));
        assert(!s.users[j].state.in_control_of.contains(sem));
    }
}

/// Observing an endpoint one already observes is refused as superfluous, and
/// changes nothing.
pub proof fn law_observe_twice_is_superfluous(s: ControlCenterView, user: Seq<char>, id: InternalEndpointIdView)
    requires
        cc_wf(s),
        has_user(s.users, user),
        model_observe(s, user, id).1 is Ok,
    ensures
        model_observe(model_observe(s, user, id).0, user, id).1 matches Err(ErrorView::SuperfluousRequest(_)),
        model_observe(model_observe(s, user, id).0, user, id).0 == model_observe(s, user, id).0,
        model_observe(model_observe(s, user, id).0, user, id).2 == Seq::<EffectView>::empty(),
{
    let m = with_mock(s, id);
    lemma_with_mock(s, id);
    let info = info_of(m, id);
    let st = state_of(m, user);
    let new_st = UserStateView { observing: st.observing.push(info), ..st };
    let s1 = with_state(m, user, new_st);
    assert(model_observe(s, user, id).0 == s1);
    lemma_with_state(m, user, new_st);
    lemma_with_mock(s1, id);
    assert(has_endpoint(s1.endpoints, id));
    assert(state_of(s1, user) == new_st);
    assert(new_st.observing[st.observing.len() as int].id == id);
    assert(contains_info_id(new_st.observing, id));
}

/// Observing a serial port nobody registered is refused with `NoSuchEndpoint`,
/// naming the port, and changes nothing.
pub proof fn law_observe_unknown_tty_is_refused(s: ControlCenterView, user: Seq<char>, path: Seq<char>)
    requires
        !has_endpoint(s.endpoints, InternalEndpointIdView::Tty(path)),
    ensures
        model_observe(s, user, InternalEndpointIdView::Tty(path)).0 == s,
        model_observe(s, user, InternalEndpointIdView::Tty(path)).1 == Err::<InternalEndpointInfoView, ErrorView>(ErrorView::NoSuchEndpoint(path)),
        model_observe(s, user, InternalEndpointIdView::Tty(path)).2 == Seq::<EffectView>::empty(),
{
    let id = InternalEndpointIdView::Tty(path);
    assert(no_such_endpoint(id) == ErrorView::NoSuchEndpoint(path));
}

/// Observing a mock nobody created yet creates it, under a fresh semaphore,
/// and the user then observes it.
pub proof fn law_observe_unknown_mock_creates_it(s: ControlCenterView, user: Seq<char>, mock: MockIdView)
    requires
        cc_wf(s),
        has_user(s.users, user),
        !has_endpoint(s.endpoints, InternalEndpointIdView::Mock(mock)),
        !contains_info_id(state_of(s, user).observing, InternalEndpointIdView::Mock(mock)),
    ensures
        model_observe(s, user, InternalEndpointIdView::Mock(mock)).1 is Ok,
        has_endpoint(model_observe(s, user, InternalEndpointIdView::Mock(mock)).0.endpoints, InternalEndpointIdView::Mock(mock)),
        model_observe(s, user, InternalEndpointIdView::Mock(mock)).2[0] == EffectView::CreateMock(mock, s.next_semaphore),
        contains_info_id(
            state_of(model_observe(s, user, InternalEndpointIdView::Mock(mock)).0, user).observing,
            InternalEndpointIdView::Mock(mock),
        ),
{
    let id = InternalEndpointIdView::Mock(mock);
    let m = with_mock(s, id);
    assert(m.endpoints.last().info.id == id);
    assert(has_endpoint(m.endpoints, id));
    assert(m.users == s.users);
    let info = info_of(m, id);
    let st = state_of(m, user);
    let new_st = UserStateView { observing: st.observing.push(info), ..st };
    lemma_with_state(m, user, new_st);
    assert(new_st.observing[st.observing.len() as int].id == id);
}

/// Asking control of an endpoint one already queues for is refused as superfluous.
pub proof fn law_control_while_queued_is_superfluous(s: ControlCenterView, user: Seq<char>, id: InternalEndpointIdView)
    requires
        cc_wf(s),
        has_user(s.users, user),
        model_control(s, user, id).1 is Ok,
    ensures
        ({
            let target: ControlTargetView = model_control(s, user, id).1->Ok_0;
            let queued = model_enqueue(model_control(s, user, id).0, user, target.group).0;
            model_control(queued, user, id).1 matches Err(ErrorView::SuperfluousRequest(_))
        }),
{
    let m = with_mock(s, id);
    lemma_with_mock(s, id);
    let target = model_control(s, user, id).1->Ok_0;
    let k = crate::control_center::endpoint_index(m.endpoints, id);
    lemma_semaphore_members(m.endpoints, target.semaphore, k);
    let g = target.group;
    let w = choose|w: int| 0 <= w < g.len() && g[w] == m.endpoints[k].info;
    let st = state_of(m, user);
    let new_st = UserStateView { in_queue_of: st.in_queue_of + g, ..st };
    lemma_with_state(m, user, new_st);
    let q = with_state(m, user, new_st);
    lemma_with_mock(q, id);
    assert(new_st.in_queue_of[st.in_queue_of.len() + w] == g[w]);
    assert(contains_info_id(new_st.in_queue_of, id));
}

/// Once granted control of a group, asking control of any of its endpoints is
/// refused as superfluous.
pub proof fn law_control_while_controlling_is_superfluous(
    s: ControlCenterView,
    user: Seq<char>,
    req: UserRequestView,
    got: Seq<InternalEndpointInfoView>,
    id: InternalEndpointIdView,
)
    requires
        cc_wf(s),
        has_user(s.users, user),
        can_take_control(s, user, got),
        has_endpoint(s.endpoints, id),
        entry_of(s, id).semaphore == entry_of(s, got[0].id).semaphore,
    ensures
        model_control(model_now_controlling(s, user, req, got).0, user, id).1 matches Err(ErrorView::SuperfluousRequest(_)),
{
    let first = match req {
        UserRequestView::Labels(labels) => model_release_queue(s, user, labels, got),
        UserRequestView::EndpointId(_) => (s, Seq::empty()),
    };
    let s1 = first.0;
    assert(s1.endpoints == s.endpoints && has_user(s1.users, user) && user_names_unique(s1.users)) by {
        match req {
            UserRequestView::Labels(labels) => {
                let diff = crate::control_center::without_ids(label_matches(s.endpoints, labels), got);
                if diff.len() > 0 {
                    let st = state_of(s, user);
                    lemma_with_state(s, user, UserStateView {
                        in_queue_of: crate::control_center::without_ids(st.in_queue_of, diff),
                        ..st
                    });
                }
            },
            UserRequestView::EndpointId(_) => {},
        }
    }
    let sem = entry_of(s1, got[0].id).semaphore;
    let st1 = state_of(s1, user);
    let new_st = UserStateView { in_control_of: st1.in_control_of.push(sem), ..st1 };
    let s2 = with_state(s1, user, new_st);
    assert(model_take_control(s1, user, got).0 == s2);
    lemma_with_state(s1, user, new_st);
    lemma_with_mock(s2, id);
    assert(state_of(s2, user).in_control_of[st1.in_control_of.len() as int] == sem);
    assert(state_of(s2, user).in_control_of.contains(sem));
}

/// When a user leaves, they are no longer known, every other user keeps their
/// state, their disconnection is announced, and no mock made on demand
/// without labels that nobody uses is left behind.
pub proof fn law_user_left(s: ControlCenterView, user: Seq<char>)
    requires
        cc_wf(s),
        has_user(s.users, user),
    ensures
        !has_user(model_user_left(s, user).0.users, user),
        forall|other: Seq<char>|
            #![trigger state_of(model_user_left(s, user).0, other)]
            #![trigger has_user(model_user_left(s, user).0.users, other)]
            other != user && has_user(s.users, other) ==>
            has_user(model_user_left(s, user).0.users, other)
            && state_of(model_user_left(s, user).0, other) == state_of(s, other),
        model_user_left(s, user).1.contains(emit(user, EventView::Disconnected)),
        forall|i: int| 0 <= i < model_user_left(s, user).0.endpoints.len() ==>
            !is_dangling(model_user_left(s, user).0.users, #[trigger] model_user_left(s, user).0.endpoints[i]),
{
    let k = user_index(s.users, user);
    let users = s.users.remove(k);
    let t = model_user_left(s, user).0;
    assert(t.users == users);
    if has_user(users, user) {
        let j = choose|j: int| 0 <= j < users.len() && (#[trigger] users[j]).name == user;
        let a = if j < k { j } else { j + 1 };
        assert(users[j] == s.users[a]);
        assert(s.users[a].name != s.users[k].name);
    }
    assert(user_names_unique(users)) by {
        assert forall|i: int, j: int|
            #![trigger users[i], users[j]]
            0 <= i < users.len() && 0 <= j < users.len() && i != j implies users[i].name != users[j].name by {
            let a = if i < k { i } else { i + 1 };
            let b = if j < k { j } else { j + 1 };
            assert(users[i] == s.users[a]);
            assert(users[j] == s.users[b]);
        }
    }
    assert forall|other: Seq<char>|
        #![trigger state_of(model_user_left(s, user).0, other)]
        #![trigger has_user(model_user_left(s, user).0.users, other)]
        other != user && has_user(s.users, other) implies
        has_user(model_user_left(s, user).0.users, other)
        && state_of(model_user_left(s, user).0, other) == state_of(s, other) by {
        let o = user_index(s.users, other);
        assert(0 <= o < s.users.len() && s.users[o].name == other);
        assert(o != k);
        let p = if o < k { o } else { o - 1 };
        assert(users[p] == s.users[o]);
        lemma_user_index(users, other, p);
        assert(has_user(users, other));
        assert(state_of(t, other) == users[p].state);
    }
    let fx = model_user_left(s, user).1;
    let leave = crate::control_center::leave_events(user, state_of(s, user), s.endpoints);
    assert(fx[leave.len() - 1] == emit(user, EventView::Disconnected));
    lemma_kept_not_dangling(s.endpoints, users);
}

/// No endpoint kept after a departure is dangling.
proof fn lemma_kept_not_dangling(eps: Seq<crate::control_center::RegisteredView>, users: Seq<crate::control_center::UserEntryView>)
    ensures
        forall|i: int| 0 <= i < kept_endpoints(eps, users).len() ==> !is_dangling(users, #[trigger] kept_endpoints(eps, users)[i]),
    decreases eps.len(),
{
    if eps.len() > 0 {
        lemma_kept_not_dangling(eps.drop_last(), users);
        let sub = kept_endpoints(eps.drop_last(), users);
        let k = kept_endpoints(eps, users);
        if !is_dangling(users, eps.last()) {
            assert forall|i: int| 0 <= i < k.len() implies !is_dangling(users, #[trigger] k[i]) by {
                if i < sub.len() {
                    assert(k[i] == sub[i]);
                }
            }
        }
    }
}

/// When the user holding a semaphore leaves, nobody holds it any more: the
/// next user in line can be granted control of the group.
pub proof fn law_controller_leaving_frees_control(s: ControlCenterView, user: Seq<char>, sem: u64)
    requires
        cc_wf(s),
        has_user(s.users, user),
        state_of(s, user).in_control_of.contains(sem),
    ensures
        semaphore_free(model_user_left(s, user).0.users, sem),
{
    let k = user_index(s.users, user);
    let users = s.users.remove(k);
    assert forall|u: int| 0 <= u < users.len() implies !(#[trigger] users[u]).state.in_control_of.contains(sem) by {
        let a = if u < k { u } else { u + 1 };
        assert(users[u] == s.users[a]);
        assert(control_exclusive(s.users));
        assert(s.users[k].state.in_control_of.contains(sem));
        assert(a != k);
    }
}

/// A request for control of any endpoint carrying some labels only offers
/// registered endpoints that carry every one of them.
pub proof fn law_label_matches_carry_the_labels(
    eps: Seq<crate::control_center::RegisteredView>,
    labels: Seq<Seq<char>>,
    k: int,
)
    requires
        0 <= k < label_matches(eps, labels).len(),
    ensures
        exists|i: int| 0 <= i < eps.len() && (#[trigger] eps[i]).info == label_matches(eps, labels)[k]
            && eps[i].labels is Some
            && forall|j: int| 0 <= j < labels.len() ==> eps[i].labels->Some_0.contains(#[trigger] labels[j]),
    decreases eps.len(),
{
    let sub = label_matches(eps.drop_last(), labels);
    let n = eps.len() - 1;
    if k < sub.len() {
        law_label_matches_carry_the_labels(eps.drop_last(), labels, k);
        let i = choose|i: int| 0 <= i < eps.drop_last().len() && (#[trigger] eps.drop_last()[i]).info == sub[k]
            && eps.drop_last()[i].labels is Some
            && forall|j: int| 0 <= j < labels.len() ==> eps.drop_last()[i].labels->Some_0.contains(#[trigger] labels[j]);
        assert(eps[i] == eps.drop_last()[i]);
        assert(label_matches(eps, labels)[k] == sub[k]);
    } else {
        assert(entry_matches(eps.last(), labels));
        assert(label_matches(eps, labels)[k] == eps[n].info);
        assert forall|j: int| 0 <= j < labels.len() implies eps[n].labels->Some_0.contains(#[trigger] labels[j]) by {
            assert(labels_superset(eps[n].labels->Some_0, labels));
        }
    }
}

/// Every registered endpoint carrying every requested label is offered to a
/// request for control of any endpoint carrying them: itself, or another
/// endpoint of its group (under the same semaphore).
pub proof fn law_matching_groups_are_offered(
    eps: Seq<crate::control_center::RegisteredView>,
    labels: Seq<Seq<char>>,
    i: int,
)
    requires
        0 <= i < eps.len(),
        eps[i].labels is Some,
        forall|j: int| 0 <= j < labels.len() ==> eps[i].labels->Some_0.contains(#[trigger] labels[j]),
    ensures
        exists|k: int, i2: int| 0 <= k < label_matches(eps, labels).len() && 0 <= i2 < eps.len()
            && (#[trigger] eps[i2]).info == #[trigger] label_matches(eps, labels)[k]
            && eps[i2].semaphore == eps[i].semaphore,
    decreases eps.len(),
{
    let p = eps.drop_last();
    let n = eps.len() - 1;
    let lp = label_matches(p, labels);
    let l = label_matches(eps, labels);
    assert forall|j: int| 0 <= j < lp.len() implies #[trigger] l[j] == lp[j] by {}
    if i < n {
        assert(p[i] == eps[i]);
        law_matching_groups_are_offered(p, labels, i);
        let (k, i2) = choose|k: int, i2: int| 0 <= k < lp.len() && 0 <= i2 < p.len()
            && (#[trigger] p[i2]).info == #[trigger] lp[k] && p[i2].semaphore == p[i].semaphore;
        assert(eps[i2] == p[i2]);
        assert(l[k] == lp[k]);
    } else {
        assert(labels_superset(eps[n].labels->Some_0, labels));
        assert(entry_matches(eps[n], labels));
        if semaphore_matched(p, labels, eps[n].semaphore) {
            let w = choose|w: int| 0 <= w < p.len() && entry_matches(#[trigger] p[w], labels) && p[w].semaphore == eps[n].semaphore;
            assert forall|j: int| 0 <= j < labels.len() implies p[w].labels->Some_0.contains(#[trigger] labels[j]) by {
                assert(labels_superset(p[w].labels->Some_0, labels));
            }
            law_matching_groups_are_offered(p, labels, w);
            let (k, i2) = choose|k: int, i2: int| 0 <= k < lp.len() && 0 <= i2 < p.len()
                && (#[trigger] p[i2]).info == #[trigger] lp[k] && p[i2].semaphore == p[w].semaphore;
            assert(eps[i2] == p[i2]);
            assert(l[k] == lp[k]);
        } else {
            assert(l == lp.push(eps[n].info));
            assert(l[lp.len() as int] == eps[n].info);
        }
    }
}

/// Only one user may write to an endpoint at a time: writing needs control,
/// and control is exclusive.
pub proof fn law_single_writer(s: ControlCenterView, i: int, j: int, id: InternalEndpointIdView)
    requires
        cc_wf(s),
        0 <= i < s.users.len(),
        0 <= j < s.users.len(),
        i != j,
    ensures
        !(may_write(s, s.users[i].name, id) && may_write(s, s.users[j].name, id)),
{
    lemma_user_index(s.users, s.users[i].name, i);
    lemma_user_index(s.users, s.users[j].name, j);
    if has_endpoint(s.endpoints, id) {
        law_control_is_exclusive(s, i, j, id);
    }
}

/// The entry registered under an id, in a registry.
spec fn entry_in(eps: Seq<RegisteredView>, id: InternalEndpointIdView) -> RegisteredView {
    eps[endpoint_index(eps, id)]
}

/// With unique ids, the position of an id is the one holding it.
proof fn lemma_endpoint_index(eps: Seq<RegisteredView>, id: InternalEndpointIdView, k: int)
    requires
        endpoint_ids_unique(eps),
        0 <= k < eps.len(),
        eps[k].info.id == id,
    ensures
        has_endpoint(eps, id),
        endpoint_index(eps, id) == k,
{
    let j = endpoint_index(eps, id);
    assert(eps[k].info.id == id);
    if j != k {
        assert(eps[j].info.id != eps[k].info.id);
    }
}

/// Registering keeps ids unique; the id is then known under the given
/// semaphore; every other id keeps its entry.
proof fn lemma_registry_insert(eps: Seq<RegisteredView>, id: InternalEndpointIdView, labels: Option<Seq<Seq<char>>>, sem: u64)
    requires
        endpoint_ids_unique(eps),
    ensures
        endpoint_ids_unique(registry_insert(eps, id, labels, sem)),
        has_endpoint(registry_insert(eps, id, labels, sem), id),
        entry_in(registry_insert(eps, id, labels, sem), id).semaphore == sem,
        forall|other: InternalEndpointIdView| other != id ==>
            (#[trigger] has_endpoint(registry_insert(eps, id, labels, sem), other)) == has_endpoint(eps, other),
        forall|other: InternalEndpointIdView| other != id && has_endpoint(eps, other) ==>
            #[trigger] entry_in(registry_insert(eps, id, labels, sem), other) == entry_in(eps, other),
{
    let r = registry_insert(eps, id, labels, sem);
    if has_endpoint(eps, id) {
        let k = endpoint_index(eps, id);
        assert(r.len() == eps.len());
        assert forall|i: int, j: int| #![trigger r[i], r[j]] 0 <= i < r.len() && 0 <= j < r.len() && i != j
            implies r[i].info.id != r[j].info.id by {
            assert(r[i].info.id == eps[i].info.id);
            assert(r[j].info.id == eps[j].info.id);
        }
        lemma_endpoint_index(r, id, k);
        assert forall|other: InternalEndpointIdView| other != id implies
            (#[trigger] has_endpoint(r, other)) == has_endpoint(eps, other) by {
            if has_endpoint(eps, other) {
                let o = endpoint_index(eps, other);
                assert(r[o].info.id == other);
            }
            if has_endpoint(r, other) {
                let o = endpoint_index(r, other);
                assert(eps[o].info.id == other);
            }
        }
        assert forall|other: InternalEndpointIdView| other != id && has_endpoint(eps, other) implies
            #[trigger] entry_in(r, other) == entry_in(eps, other) by {
            let o = endpoint_index(eps, other);
            assert(o != k);
            assert(r[o] == eps[o]);
            lemma_endpoint_index(r, other, o);
        }
    } else {
        let n = eps.len() as int;
        assert forall|i: int, j: int| #![trigger r[i], r[j]] 0 <= i < r.len() && 0 <= j < r.len() && i != j
            implies r[i].info.id != r[j].info.id by {
            if i < n && j < n {
                assert(r[i] == eps[i] && r[j] == eps[j]);
            } else if i < n {
                assert(r[i] == eps[i]);
                assert(eps[i].info.id != id);
            } else {
                assert(r[j] == eps[j]);
                assert(eps[j].info.id != id);
            }
        }
        lemma_endpoint_index(r, id, n);
        assert forall|other: InternalEndpointIdView| other != id implies
            (#[trigger] has_endpoint(r, other)) == has_endpoint(eps, other) by {
            if has_endpoint(eps, other) {
                let o = endpoint_index(eps, other);
                assert(r[o].info.id == other);
            }
            if has_endpoint(r, other) {
                let o = endpoint_index(r, other);
                assert(o != n);
                assert(eps[o].info.id == other);
            }
        }
        assert forall|other: InternalEndpointIdView| other != id && has_endpoint(eps, other) implies
            #[trigger] entry_in(r, other) == entry_in(eps, other) by {
            let o = endpoint_index(eps, other);
            assert(r[o] == eps[o]);
            lemma_endpoint_index(r, other, o);
        }
    }
}

/// Setting up the stand-alone endpoints keeps ids unique.
proof fn lemma_config_endpoints_unique(s: ControlCenterView, eps: Seq<ConfigEndpointView>)
    requires
        endpoint_ids_unique(s.endpoints),
    ensures
        endpoint_ids_unique(register_config_endpoints(s, eps).endpoints),
    decreases eps.len(),
{
    if eps.len() > 0 {
        lemma_config_endpoints_unique(s, eps.drop_last());
        let p = register_config_endpoints(s, eps.drop_last());
        lemma_registry_insert(p.endpoints, crate::control_center::config_internal_id(eps.last().id),
            crate::control_center::labels_opt(eps.last().labels), p.next_semaphore);
    }
}

/// The id member `k` of the group at `index` is registered under.
pub open spec fn member_internal(index: nat, g: GroupView, k: int) -> InternalEndpointIdView {
    group_member_id(index, g.endpoints.last().id is Mock, g.endpoints[k].id)
}

/// Registering a group's members: each is known under the group's semaphore,
/// and every id which is none of them keeps its entry.
proof fn lemma_register_members(
    p: ControlCenterView,
    index: nat,
    mock_group: bool,
    group_labels: Seq<Seq<char>>,
    members: Seq<ConfigEndpointView>,
    sem: u64,
)
    requires
        endpoint_ids_unique(p.endpoints),
    ensures
        endpoint_ids_unique(register_members(p, index, mock_group, group_labels, members, sem).endpoints),
        forall|k: int| 0 <= k < members.len() ==> {
            let id = group_member_id(index, mock_group, #[trigger] members[k].id);
            &&& has_endpoint(register_members(p, index, mock_group, group_labels, members, sem).endpoints, id)
            &&& entry_in(register_members(p, index, mock_group, group_labels, members, sem).endpoints, id).semaphore == sem
        },
        forall|other: InternalEndpointIdView|
            (forall|k: int| 0 <= k < members.len() ==> other != group_member_id(index, mock_group, #[trigger] members[k].id))
            && has_endpoint(p.endpoints, other) ==> {
                &&& has_endpoint(register_members(p, index, mock_group, group_labels, members, sem).endpoints, other)
                &&& #[trigger] entry_in(register_members(p, index, mock_group, group_labels, members, sem).endpoints, other)
                    == entry_in(p.endpoints, other)
            },
    decreases members.len(),
{
    if members.len() > 0 {
        let prefix = members.drop_last();
        lemma_register_members(p, index, mock_group, group_labels, prefix, sem);
        let q = register_members(p, index, mock_group, group_labels, prefix, sem);
        let e = members.last();
        let id = group_member_id(index, mock_group, e.id);
        let labels = crate::control_center::labels_opt(group_labels + e.labels);
        lemma_registry_insert(q.endpoints, id, labels, sem);
        let r = register_members(p, index, mock_group, group_labels, members, sem);
        assert(r.endpoints == registry_insert(q.endpoints, id, labels, sem));
        assert forall|k: int| 0 <= k < members.len() implies {
            let mid = group_member_id(index, mock_group, #[trigger] members[k].id);
            &&& has_endpoint(r.endpoints, mid)
            &&& entry_in(r.endpoints, mid).semaphore == sem
        } by {
            let mid = group_member_id(index, mock_group, members[k].id);
            if k < prefix.len() {
                assert(prefix[k] == members[k]);
                if mid != id {
                    assert(has_endpoint(q.endpoints, mid));
                }
            }
        }
        assert forall|other: InternalEndpointIdView|
            (forall|k: int| 0 <= k < members.len() ==> other != group_member_id(index, mock_group, #[trigger] members[k].id))
            && has_endpoint(p.endpoints, other) implies {
                &&& has_endpoint(r.endpoints, other)
                &&& #[trigger] entry_in(r.endpoints, other) == entry_in(p.endpoints, other)
            } by {
            assert(other != group_member_id(index, mock_group, members[members.len() - 1].id));
            assert forall|k: int| 0 <= k < prefix.len() implies other != group_member_id(index, mock_group, #[trigger] prefix[k].id) by {
                assert(prefix[k] == members[k]);
            }
            assert(has_endpoint(q.endpoints, other));
            assert(entry_in(q.endpoints, other) == entry_in(p.endpoints, other));
            assert(has_endpoint(registry_insert(q.endpoints, id, labels, sem), other) == has_endpoint(q.endpoints, other));
            assert(entry_in(registry_insert(q.endpoints, id, labels, sem), other) == entry_in(q.endpoints, other));
        }
    }
}

/// A sequence without duplicates has each value at most once.
proof fn lemma_occurrences_at_most_one<E>(s: Seq<E>, e: E)
    requires
        s.no_duplicates(),
    ensures
        occurrences(s, e) <= 1,
        occurrences(s, e) == 0 <==> !s.contains(e),
    decreases s.len(),
{
    if s.len() > 0 {
        let p = s.drop_last();
        assert(p.no_duplicates()) by {
            assert forall|i: int, j: int| 0 <= i < p.len() && 0 <= j < p.len() && i != j implies p[i] != p[j] by {
                assert(p[i] == s[i] && p[j] == s[j]);
            }
        }
        lemma_occurrences_at_most_one(p, e);
        if s.last() == e {
            if p.contains(e) {
                let w = choose|w: int| 0 <= w < p.len() && p[w] == e;
                assert(s[w] == s[s.len() - 1]);
            }
        }
        if s.contains(e) && s.last() != e {
            let w = choose|w: int| 0 <= w < s.len() && s[w] == e;
            assert(p[w] == e);
        }
        if p.contains(e) {
            let w = choose|w: int| 0 <= w < p.len() && p[w] == e;
            assert(s[w] == e);
        }
    } else {
        assert(!s.contains(e));
    }
}

/// A sequence whose duplicates are none holds each value at most once.
proof fn lemma_no_duplicates<E>(s: Seq<E>)
    requires
        duplicates(s).len() == 0,
    ensures
        s.no_duplicates(),
    decreases s.len(),
{
    if s.len() > 0 {
        let p = s.drop_last();
        if occurrences(p, s.last()) == 1 {
            assert(duplicates(s).len() > 0);
        }
        assert(duplicates(p).len() == 0);
        lemma_no_duplicates(p);
        lemma_occurrences_at_most_one(p, s.last());
        assert(!p.contains(s.last()));
        assert forall|i: int, j: int| 0 <= i < s.len() && 0 <= j < s.len() && i != j implies s[i] != s[j] by {
            if i < p.len() && j < p.len() {
                assert(p[i] == s[i] && p[j] == s[j]);
            } else if i < p.len() {
                assert(p[i] == s[i]);
            } else {
                assert(p[j] == s[j]);
            }
        }
    }
}

/// Every member of every group is among the groups' member ids.
proof fn lemma_group_ids_contain(gs: Seq<GroupView>, gi: int, k: int)
    requires
        0 <= gi < gs.len(),
        0 <= k < gs[gi].endpoints.len(),
    ensures
        group_ids(gs).contains(gs[gi].endpoints[k].id),
    decreases gs.len(),
{
    let prefix = gs.drop_last();
    let m = member_ids(gs.last());
    if gi == gs.len() - 1 {
        assert(m[k] == gs[gi].endpoints[k].id);
        assert(group_ids(gs)[group_ids(prefix).len() + k] == m[k]);
    } else {
        lemma_group_ids_contain(prefix, gi, k);
        assert(prefix[gi] == gs[gi]);
        let w = choose|w: int| 0 <= w < group_ids(prefix).len() && group_ids(prefix)[w] == gs[gi].endpoints[k].id;
        assert(group_ids(gs)[w] == group_ids(prefix)[w]);
    }
}

/// In a group of one variant, every member has the variant of the last one.
proof fn lemma_member_variant(g: GroupView, k: int)
    requires
        g.endpoints.len() > 0,
        !group_is_mixed(g),
        0 <= k < g.endpoints.len(),
    ensures
        (g.endpoints[k].id is Mock) == (g.endpoints.last().id is Mock),
{
    let n = g.endpoints.len() - 1;
    if g.endpoints[k].id is Mock && !(g.endpoints[n].id is Mock) {
        assert(g.endpoints[n].id is Tty);
    }
    if !(g.endpoints[k].id is Mock) && g.endpoints[n].id is Mock {
        assert(g.endpoints[k].id is Tty);
    }
}

/// Members of homogeneous groups with different ids are registered under different ids.
proof fn lemma_member_ids_differ(i1: nat, g1: GroupView, k1: int, i2: nat, g2: GroupView, k2: int)
    requires
        g1.endpoints.len() > 0,
        g2.endpoints.len() > 0,
        !group_is_mixed(g1),
        !group_is_mixed(g2),
        0 <= k1 < g1.endpoints.len(),
        0 <= k2 < g2.endpoints.len(),
        g1.endpoints[k1].id != g2.endpoints[k2].id,
    ensures
        member_internal(i1, g1, k1) != member_internal(i2, g2, k2),
{
    lemma_member_variant(g1, k1);
    lemma_member_variant(g2, k2);
}

/// Whether the groups are each non-empty and of one variant.
spec fn groups_homogeneous(gs: Seq<GroupView>) -> bool {
    forall|i: int| 0 <= i < gs.len() ==> (#[trigger] gs[i]).endpoints.len() > 0 && !group_is_mixed(gs[i])
}

/// Registering groups whose members are all distinct: every group's members
/// share one semaphore, and ids outside the groups keep their entries.
proof fn lemma_register_groups(s: ControlCenterView, gs: Seq<GroupView>)
    requires
        endpoint_ids_unique(s.endpoints),
        groups_homogeneous(gs),
        group_ids(gs).no_duplicates(),
    ensures
        endpoint_ids_unique(register_groups(s, gs).endpoints),
        forall|gi: int, k1: int, k2: int|
            #![trigger member_internal(gi as nat, gs[gi], k1), member_internal(gi as nat, gs[gi], k2)]
            0 <= gi < gs.len() && 0 <= k1 < gs[gi].endpoints.len() && 0 <= k2 < gs[gi].endpoints.len() ==> {
                &&& has_endpoint(register_groups(s, gs).endpoints, member_internal(gi as nat, gs[gi], k1))
                &&& entry_in(register_groups(s, gs).endpoints, member_internal(gi as nat, gs[gi], k1)).semaphore
                    == entry_in(register_groups(s, gs).endpoints, member_internal(gi as nat, gs[gi], k2)).semaphore
            },
    decreases gs.len(),
{
    if gs.len() > 0 {
        let prefix = gs.drop_last();
        let n = gs.len() - 1;
        let last = gs.last();
        let ids = group_ids(gs);
        let pre_ids = group_ids(prefix);
        let mids = member_ids(last);
        assert(ids == pre_ids + mids);
        assert(pre_ids.no_duplicates()) by {
            assert forall|i: int, j: int| 0 <= i < pre_ids.len() && 0 <= j < pre_ids.len() && i != j implies pre_ids[i] != pre_ids[j] by {
                assert(ids[i] == pre_ids[i] && ids[j] == pre_ids[j]);
            }
        }
        assert(groups_homogeneous(prefix)) by {
            assert forall|i: int| 0 <= i < prefix.len() implies (#[trigger] prefix[i]).endpoints.len() > 0 && !group_is_mixed(prefix[i]) by {
                assert(prefix[i] == gs[i]);
            }
        }
        lemma_register_groups(s, prefix);
        let p = register_groups(s, prefix);
        let sem = p.next_semaphore;
        let p2 = ControlCenterView { next_semaphore: (sem + 1) as u64, ..p };
        let mg = last.endpoints.last().id is Mock;
        lemma_register_members(p2, n as nat, mg, last.labels, last.endpoints, sem);
        let r = register_groups(s, gs);
        assert(r == register_members(p2, n as nat, mg, last.labels, last.endpoints, sem));
        assert(last == gs[n]);
        assert forall|gi: int, k1: int, k2: int|
            #![trigger member_internal(gi as nat, gs[gi], k1), member_internal(gi as nat, gs[gi], k2)]
            0 <= gi < gs.len() && 0 <= k1 < gs[gi].endpoints.len() && 0 <= k2 < gs[gi].endpoints.len() implies {
                &&& has_endpoint(r.endpoints, member_internal(gi as nat, gs[gi], k1))
                &&& entry_in(r.endpoints, member_internal(gi as nat, gs[gi], k1)).semaphore
                    == entry_in(r.endpoints, member_internal(gi as nat, gs[gi], k2)).semaphore
            } by {
            if gi == n {
                assert(member_internal(gi as nat, gs[gi], k1) == group_member_id(n as nat, mg, last.endpoints[k1].id));
                assert(member_internal(gi as nat, gs[gi], k2) == group_member_id(n as nat, mg, last.endpoints[k2].id));
            } else {
                assert(prefix[gi] == gs[gi]);
                let a = member_internal(gi as nat, gs[gi], k1);
                let b = member_internal(gi as nat, gs[gi], k2);
                assert(has_endpoint(p.endpoints, a) && has_endpoint(p.endpoints, b));
                lemma_group_ids_contain(prefix, gi, k1);
                lemma_group_ids_contain(prefix, gi, k2);
                assert forall|k: int| 0 <= k < last.endpoints.len() implies
                    a != group_member_id(n as nat, mg, #[trigger] last.endpoints[k].id)
                    && b != group_member_id(n as nat, mg, last.endpoints[k].id) by {
                    let x = last.endpoints[k].id;
                    assert(mids[k] == x);
                    assert(ids[pre_ids.len() + k] == x);
                    if x == gs[gi].endpoints[k1].id {
                        let w = choose|w: int| 0 <= w < pre_ids.len() && pre_ids[w] == x;
                        assert(ids[w] == x);
                    }
                    if x == gs[gi].endpoints[k2].id {
                        let w = choose|w: int| 0 <= w < pre_ids.len() && pre_ids[w] == x;
                        assert(ids[w] == x);
                    }
                    assert(member_internal(n as nat, last, k) == group_member_id(n as nat, mg, x));
                    lemma_member_ids_differ(gi as nat, gs[gi], k1, n as nat, last, k);
                    lemma_member_ids_differ(gi as nat, gs[gi], k2, n as nat, last, k);
                }
            }
        }
    }
}

/// Serial ports found on the machine are registered each under its own
/// semaphore, unless registered already; every id registered before keeps its entry.
proof fn lemma_register_ports(s: ControlCenterView, ports: Seq<Seq<char>>)
    requires
        endpoint_ids_unique(s.endpoints),
    ensures
        endpoint_ids_unique(register_ports(s, ports).endpoints),
        register_ports(s, ports).users == s.users,
        forall|other: InternalEndpointIdView|
            has_endpoint(s.endpoints, other) ==> {
                &&& has_endpoint(register_ports(s, ports).endpoints, other)
                &&& #[trigger] entry_in(register_ports(s, ports).endpoints, other) == entry_in(s.endpoints, other)
            },
    decreases ports.len(),
{
    if ports.len() > 0 {
        let prefix = ports.drop_last();
        lemma_register_ports(s, prefix);
        let p = register_ports(s, prefix);
        let t = InternalEndpointIdView::Tty(ports.last());
        if !has_endpoint(p.endpoints, t) {
            lemma_registry_insert(p.endpoints, t, None, p.next_semaphore);
            assert forall|other: InternalEndpointIdView|
                has_endpoint(s.endpoints, other) implies {
                    &&& has_endpoint(register_ports(s, ports).endpoints, other)
                    &&& #[trigger] entry_in(register_ports(s, ports).endpoints, other) == entry_in(s.endpoints, other)
                } by {
                assert(has_endpoint(p.endpoints, other));
                assert(other != t);
                assert(entry_in(p.endpoints, other) == entry_in(s.endpoints, other));
                assert(register_ports(s, ports).endpoints == registry_insert(p.endpoints, t, None, p.next_semaphore));
                assert(has_endpoint(registry_insert(p.endpoints, t, None, p.next_semaphore), other) == has_endpoint(p.endpoints, other));
                assert(entry_in(registry_insert(p.endpoints, t, None, p.next_semaphore), other) == entry_in(p.endpoints, other));
            }
        }
    }
}

/// The members of a group are allocated together: in the control center set up
/// from a valid configuration, whatever serial ports are found, they are all
/// registered under one semaphore, so controlling one of them is controlling
/// all of them.
pub proof fn law_group_members_share_control(c: ConfigView, ports: Seq<Seq<char>>, gi: int, k1: int, k2: int)
    requires
        config_valid(c),
        0 <= gi < c.groups.len(),
        0 <= k1 < c.groups[gi].endpoints.len(),
        0 <= k2 < c.groups[gi].endpoints.len(),
    ensures
        has_endpoint(model_from_config(c, ports).endpoints, member_internal(gi as nat, c.groups[gi], k1)),
        has_endpoint(model_from_config(c, ports).endpoints, member_internal(gi as nat, c.groups[gi], k2)),
        entry_of(model_from_config(c, ports), member_internal(gi as nat, c.groups[gi], k1)).semaphore
            == entry_of(model_from_config(c, ports), member_internal(gi as nat, c.groups[gi], k2)).semaphore,
{
    let empty = ControlCenterView { endpoints: Seq::empty(), users: Seq::empty(), next_semaphore: 0, share_mocks: false };
    lemma_config_endpoints_unique(empty, c.endpoints);
    let a = register_config_endpoints(empty, c.endpoints);
    lemma_no_duplicates(group_ids(c.groups));
    assert(groups_homogeneous(c.groups));
    lemma_register_groups(a, c.groups);
    let b = register_groups(a, c.groups);
    let found = if c.auto_open_serial_ports { ports } else { Seq::empty() };
    lemma_register_ports(b, found);
    let g = c.groups[gi];
    let x = member_internal(gi as nat, g, k1);
    let y = member_internal(gi as nat, g, k2);
    assert(has_endpoint(b.endpoints, x) && has_endpoint(b.endpoints, y));
    assert(entry_in(b.endpoints, x).semaphore == entry_in(b.endpoints, y).semaphore);
    let m = model_from_config(c, ports);
    assert(m == register_ports(b, found));
    assert(has_endpoint(m.endpoints, x) && entry_in(m.endpoints, x) == entry_in(b.endpoints, x));
    assert(has_endpoint(m.endpoints, y) && entry_in(m.endpoints, y) == entry_in(b.endpoints, y));
}


/// Without shared mocks, a mock name means each user's own mock: two users
/// asking for the same name mean two different endpoints.
pub proof fn law_unshared_mocks_are_per_user(s: ControlCenterView, u1: Seq<char>, u2: Seq<char>, name: Seq<char>)
    requires
        !s.share_mocks,
        u1 != u2,
    ensures
        resolve_id(s, u1, EndpointIdView::Mock(name)) == InternalEndpointIdView::Mock(MockIdView { user: u1, name }),
        resolve_id(s, u1, EndpointIdView::Mock(name)) != resolve_id(s, u2, EndpointIdView::Mock(name)),
{
    assert(MockIdView { user: u1, name }.user != MockIdView { user: u2, name }.user);
}

/// With shared mocks, once a mock of some name is registered, every user
/// asking for that name means that one endpoint.
pub proof fn law_shared_mock_is_one_endpoint(s: ControlCenterView, u1: Seq<char>, u2: Seq<char>, name: Seq<char>)
    requires
        s.share_mocks,
        has_mock_named(s.endpoints, name),
    ensures
        resolve_id(s, u1, EndpointIdView::Mock(name)) == resolve_id(s, u2, EndpointIdView::Mock(name)),
        is_mock_named(s.endpoints[first_mock_named(s.endpoints, name)], name),
        resolve_id(s, u1, EndpointIdView::Mock(name)) == s.endpoints[first_mock_named(s.endpoints, name)].info.id,
{
    let k = choose|k: int| 0 <= k < s.endpoints.len() && is_mock_named(#[trigger] s.endpoints[k], name);
    let f = first_mock_named(s.endpoints, name);
    lemma_first_mock_exists(s.endpoints, name, k);
}

/// The first mock of a name exists when some mock has that name.
proof fn lemma_first_mock_exists(eps: Seq<RegisteredView>, name: Seq<char>, k: int)
    requires
        0 <= k < eps.len(),
        is_mock_named(eps[k], name),
    ensures
        0 <= first_mock_named(eps, name) < eps.len(),
        is_mock_named(eps[first_mock_named(eps, name)], name),
    decreases k,
{
    if exists|j: int| 0 <= j < k && is_mock_named(#[trigger] eps[j], name) {
        let j = choose|j: int| 0 <= j < k && is_mock_named(#[trigger] eps[j], name);
        lemma_first_mock_exists(eps, name, j);
    } else {
        assert(0 <= k < eps.len() && is_mock_named(eps[k], name)
            && forall|j: int| 0 <= j < k ==> !is_mock_named(#[trigger] eps[j], name));
    }
}

/// With shared mocks, making sure a user's mock exists when no mock has its
/// name registers it under that user, and from then on every user asking for
/// the name means it.
proof fn lemma_shared_mock_made(s: ControlCenterView, u1: Seq<char>, u2: Seq<char>, name: Seq<char>)
    requires
        s.share_mocks,
        !has_mock_named(s.endpoints, name),
    ensures
        resolve_id(s, u1, EndpointIdView::Mock(name)) == InternalEndpointIdView::Mock(MockIdView { user: u1, name }),
        resolve_id(with_mock(s, InternalEndpointIdView::Mock(MockIdView { user: u1, name })), u2, EndpointIdView::Mock(name))
            == InternalEndpointIdView::Mock(MockIdView { user: u1, name }),
{
    let id = InternalEndpointIdView::Mock(MockIdView { user: u1, name });
    if has_endpoint(s.endpoints, id) {
        let i = choose|i: int| 0 <= i < s.endpoints.len() && (#[trigger] s.endpoints[i]).info.id == id;
        assert(is_mock_named(s.endpoints[i], name));
    }
    let m = with_mock(s, id);
    let n = s.endpoints.len() as int;
    assert(m.endpoints[n].info.id == id);
    assert(is_mock_named(m.endpoints[n], name));
    assert(has_mock_named(m.endpoints, name));
    let f = first_mock_named(m.endpoints, name);
    assert(0 <= f < m.endpoints.len() && is_mock_named(m.endpoints[f], name)
        && forall|j: int| 0 <= j < f ==> !is_mock_named(#[trigger] m.endpoints[j], name));
    if f < n {
        assert(m.endpoints[f] == s.endpoints[f]);
        assert(!has_mock_named(s.endpoints, name) ==> !is_mock_named(s.endpoints[f], name));
    }
    if f > n {
        assert(!is_mock_named(m.endpoints[n], name));
    }
    assert(f == n);
}

/// With shared mocks, the first user to observe a mock name nobody has made
/// yet makes it as their own, and afterwards every user asking for that name
/// means that endpoint, whatever the observation answered.
pub proof fn law_first_observer_makes_the_shared_mock(s: ControlCenterView, u1: Seq<char>, u2: Seq<char>, name: Seq<char>)
    requires
        cc_wf(s),
        s.share_mocks,
        has_user(s.users, u1),
        !has_mock_named(s.endpoints, name),
    ensures
        resolve_id(s, u1, EndpointIdView::Mock(name)) == InternalEndpointIdView::Mock(MockIdView { user: u1, name }),
        resolve_id(model_observe(s, u1, resolve_id(s, u1, EndpointIdView::Mock(name))).0, u2, EndpointIdView::Mock(name))
            == InternalEndpointIdView::Mock(MockIdView { user: u1, name }),
{
    lemma_shared_mock_made(s, u1, u2, name);
    let id = InternalEndpointIdView::Mock(MockIdView { user: u1, name });
    let m = with_mock(s, id);
    let r = model_observe(s, u1, id).0;
    assert(r.endpoints == m.endpoints && r.share_mocks == m.share_mocks);
    assert(resolve_id(r, u2, EndpointIdView::Mock(name)) == resolve_id(m, u2, EndpointIdView::Mock(name)));
}

/// With shared mocks, the first user to ask control of a mock name nobody has
/// made yet makes it as their own, and afterwards every user asking for that
/// name means that endpoint, so they queue behind one semaphore.
pub proof fn law_first_controller_makes_the_shared_mock(s: ControlCenterView, u1: Seq<char>, u2: Seq<char>, name: Seq<char>)
    requires
        cc_wf(s),
        s.share_mocks,
        has_user(s.users, u1),
        !has_mock_named(s.endpoints, name),
    ensures
        resolve_id(s, u1, EndpointIdView::Mock(name)) == InternalEndpointIdView::Mock(MockIdView { user: u1, name }),
        resolve_id(model_control(s, u1, resolve_id(s, u1, EndpointIdView::Mock(name))).0, u2, EndpointIdView::Mock(name))
            == InternalEndpointIdView::Mock(MockIdView { user: u1, name }),
{
    lemma_shared_mock_made(s, u1, u2, name);
    let id = InternalEndpointIdView::Mock(MockIdView { user: u1, name });
    let m = with_mock(s, id);
    let r = model_control(s, u1, id).0;
    assert(r == m);
}


/// The members of a semaphore are exactly the registry's entries guarded by it.
proof fn lemma_semaphore_members_exactly(eps: Seq<RegisteredView>, sem: u64)
    ensures
        forall|k: int| 0 <= k < eps.len() && (#[trigger] eps[k]).semaphore == sem
            ==> semaphore_members(eps, sem).contains(eps[k].info),
        forall|j: int| 0 <= j < semaphore_members(eps, sem).len() ==>
            exists|k: int| 0 <= k < eps.len() && (#[trigger] eps[k]).info == #[trigger] semaphore_members(eps, sem)[j]
                && eps[k].semaphore == sem,
    decreases eps.len(),
{
    if eps.len() > 0 {
        let prefix = eps.drop_last();
        lemma_semaphore_members_exactly(prefix, sem);
        let pm = semaphore_members(prefix, sem);
        let m = semaphore_members(eps, sem);
        let n = eps.len() - 1;
        assert forall|k: int| 0 <= k < eps.len() && (#[trigger] eps[k]).semaphore == sem implies m.contains(eps[k].info) by {
            if k < n {
                assert(prefix[k] == eps[k]);
                assert(pm.contains(prefix[k].info));
                let i = choose|i: int| 0 <= i < pm.len() && pm[i] == prefix[k].info;
                if eps.last().semaphore == sem {
                    assert(m[i] == pm[i]);
                }
            } else {
                assert(m[m.len() - 1] == eps[k].info);
            }
        }
        assert forall|j: int| 0 <= j < m.len() implies
            exists|k: int| 0 <= k < eps.len() && (#[trigger] eps[k]).info == #[trigger] m[j] && eps[k].semaphore == sem by {
            if j < pm.len() {
                assert(m[j] == pm[j]);
                let k = choose|k: int| 0 <= k < prefix.len() && (#[trigger] prefix[k]).info == #[trigger] pm[j] && prefix[k].semaphore == sem;
                assert(eps[k] == prefix[k]);
            } else {
                assert(eps[n].info == m[j]);
            }
        }
    }
}

/// Asking control of an endpoint is asking control of its whole group: when
/// granted, the group named is every endpoint guarded by the endpoint's
/// semaphore and nothing else; with the permit free the user holds the group,
/// and with it busy the user queues for that whole group.
pub proof fn law_control_is_for_the_whole_group(s: ControlCenterView, user: Seq<char>, id: InternalEndpointIdView, permit_free: bool)
    requires
        cc_wf(s),
        has_user(s.users, user),
        model_control(s, user, id).1 is Ok,
    ensures ({
        let m = model_control(s, user, id).0;
        let t = model_control(s, user, id).1->Ok_0;
        &&& has_endpoint(m.endpoints, id)
        &&& t.semaphore == entry_of(m, id).semaphore
        &&& forall|k: int| 0 <= k < m.endpoints.len() && (#[trigger] m.endpoints[k]).semaphore == t.semaphore
            ==> t.group.contains(m.endpoints[k].info)
        &&& forall|j: int| 0 <= j < t.group.len() ==>
            exists|k: int| 0 <= k < m.endpoints.len() && (#[trigger] m.endpoints[k]).info == #[trigger] t.group[j]
                && m.endpoints[k].semaphore == t.semaphore
        &&& model_attempt(m, user, t.group, permit_free).1 == if permit_free {
                ControlAttemptView::Granted
            } else {
                ControlAttemptView::Queued(t.group)
            }
    }),
{
    let m = model_control(s, user, id).0;
    let t = model_control(s, user, id).1->Ok_0;
    lemma_semaphore_members_exactly(m.endpoints, t.semaphore);
}


/// Registering group members none of whose ids is registered yet, and no two
/// alike: they are appended in order, each with the group's labels followed
/// by its own, under the group's semaphore.
proof fn lemma_register_members_fresh(
    p: ControlCenterView,
    index: nat,
    mock_group: bool,
    group_labels: Seq<Seq<char>>,
    members: Seq<ConfigEndpointView>,
    sem: u64,
)
    requires
        forall|i: int, k: int| 0 <= i < p.endpoints.len() && 0 <= k < members.len()
            ==> (#[trigger] p.endpoints[i]).info.id != group_member_id(index, mock_group, (#[trigger] members[k]).id),
        forall|k1: int, k2: int| 0 <= k1 < members.len() && 0 <= k2 < members.len() && k1 != k2
            ==> group_member_id(index, mock_group, (#[trigger] members[k1]).id)
                != group_member_id(index, mock_group, (#[trigger] members[k2]).id),
    ensures ({
        let r = register_members(p, index, mock_group, group_labels, members, sem);
        &&& r.endpoints.len() == p.endpoints.len() + members.len()
        &&& r.next_semaphore == p.next_semaphore
        &&& r.users == p.users
        &&& forall|i: int| 0 <= i < p.endpoints.len() ==> #[trigger] r.endpoints[i] == p.endpoints[i]
        &&& forall|k: int| 0 <= k < members.len() ==> #[trigger] r.endpoints[p.endpoints.len() + k] == ({
            let l = crate::control_center::labels_opt(group_labels + members[k].labels);
            RegisteredView {
                info: InternalEndpointInfoView { id: group_member_id(index, mock_group, members[k].id), labels: l },
                labels: l,
                semaphore: sem,
                on_demand: false,
            }
        })
    }),
    decreases members.len(),
{
    if members.len() > 0 {
        let prefix = members.drop_last();
        assert forall|i: int, k: int| 0 <= i < p.endpoints.len() && 0 <= k < prefix.len()
            implies (#[trigger] p.endpoints[i]).info.id != group_member_id(index, mock_group, (#[trigger] prefix[k]).id) by {
            assert(prefix[k] == members[k]);
        }
        assert forall|k1: int, k2: int| 0 <= k1 < prefix.len() && 0 <= k2 < prefix.len() && k1 != k2
            implies group_member_id(index, mock_group, (#[trigger] prefix[k1]).id)
                != group_member_id(index, mock_group, (#[trigger] prefix[k2]).id) by {
            assert(prefix[k1] == members[k1] && prefix[k2] == members[k2]);
        }
        lemma_register_members_fresh(p, index, mock_group, group_labels, prefix, sem);
        let q = register_members(p, index, mock_group, group_labels, prefix, sem);
        let n = members.len() - 1;
        let e = members.last();
        let id = group_member_id(index, mock_group, e.id);
        let l = crate::control_center::labels_opt(group_labels + e.labels);
        if has_endpoint(q.endpoints, id) {
            let i = choose|i: int| 0 <= i < q.endpoints.len() && (#[trigger] q.endpoints[i]).info.id == id;
            if i < p.endpoints.len() {
                assert(q.endpoints[i] == p.endpoints[i]);
                assert(members[n] == e);
                assert(p.endpoints[i].info.id != group_member_id(index, mock_group, members[n].id));
            } else {
                let k = i - p.endpoints.len();
                assert(q.endpoints[p.endpoints.len() + k].info.id == group_member_id(index, mock_group, prefix[k].id));
                assert(prefix[k] == members[k]);
                assert(group_member_id(index, mock_group, members[k].id) != group_member_id(index, mock_group, members[n].id));
            }
        }
        let r = register_members(p, index, mock_group, group_labels, members, sem);
        assert(r.endpoints == q.endpoints.push(RegisteredView { info: InternalEndpointInfoView { id, labels: l }, labels: l, semaphore: sem, on_demand: false }));
        assert forall|k: int| 0 <= k < members.len() implies #[trigger] r.endpoints[p.endpoints.len() + k] == ({
            let l = crate::control_center::labels_opt(group_labels + members[k].labels);
            RegisteredView {
                info: InternalEndpointInfoView { id: group_member_id(index, mock_group, members[k].id), labels: l },
                labels: l,
                semaphore: sem,
                on_demand: false,
            }
        }) by {
            if k < n {
                assert(prefix[k] == members[k]);
                assert(r.endpoints[p.endpoints.len() + k] == q.endpoints[p.endpoints.len() + k]);
            }
        }
        assert forall|i: int| 0 <= i < p.endpoints.len() implies #[trigger] r.endpoints[i] == p.endpoints[i] by {
            assert(r.endpoints[i] == q.endpoints[i]);
        }
    }
}

/// Registering groups on an empty registry: each group takes the next
/// semaphore in turn, and each member is registered under its group's
/// semaphore with the group's labels followed by its own; every entry is a member.
proof fn lemma_register_groups_exact(s: ControlCenterView, gs: Seq<GroupView>)
    requires
        s.endpoints.len() == 0,
        groups_homogeneous(gs),
        group_ids(gs).no_duplicates(),
        s.next_semaphore + gs.len() < u64::MAX,
    ensures ({
        let r = register_groups(s, gs);
        &&& r.next_semaphore == s.next_semaphore + gs.len()
        &&& r.users == s.users
        &&& endpoint_ids_unique(r.endpoints)
        &&& forall|i: int| 0 <= i < r.endpoints.len() ==> exists|gj: int, k: int|
            0 <= gj < gs.len() && 0 <= k < gs[gj].endpoints.len()
            && (#[trigger] r.endpoints[i]).info.id == #[trigger] member_internal(gj as nat, gs[gj], k)
        &&& forall|gi: int, k: int| 0 <= gi < gs.len() && 0 <= k < gs[gi].endpoints.len() ==> {
            let x = #[trigger] member_internal(gi as nat, gs[gi], k);
            &&& has_endpoint(r.endpoints, x)
            &&& entry_in(r.endpoints, x).semaphore == s.next_semaphore + gi
            &&& entry_in(r.endpoints, x).labels == crate::control_center::labels_opt(gs[gi].labels + gs[gi].endpoints[k].labels)
        }
    }),
    decreases gs.len(),
{
    if gs.len() > 0 {
        let prefix = gs.drop_last();
        let n = gs.len() - 1;
        let last = gs.last();
        let ids = group_ids(gs);
        let pre_ids = group_ids(prefix);
        let mids = member_ids(last);
        assert(ids == pre_ids + mids);
        assert(pre_ids.no_duplicates()) by {
            assert forall|i: int, j: int| 0 <= i < pre_ids.len() && 0 <= j < pre_ids.len() && i != j implies pre_ids[i] != pre_ids[j] by {
                assert(ids[i] == pre_ids[i] && ids[j] == pre_ids[j]);
            }
        }
        assert(groups_homogeneous(prefix)) by {
            assert forall|i: int| 0 <= i < prefix.len() implies (#[trigger] prefix[i]).endpoints.len() > 0 && !group_is_mixed(prefix[i]) by {
                assert(prefix[i] == gs[i]);
            }
        }
        assert(last == gs[n]);
        assert(last.endpoints.len() > 0 && !group_is_mixed(last));
        lemma_register_groups_exact(s, prefix);
        let p = register_groups(s, prefix);
        let sem = p.next_semaphore;
        let p2 = ControlCenterView { next_semaphore: (sem + 1) as u64, ..p };
        let mg = last.endpoints.last().id is Mock;
        assert forall|k: int| 0 <= k < last.endpoints.len()
            implies #[trigger] member_internal(n as nat, last, k) == group_member_id(n as nat, mg, last.endpoints[k].id) by {}
        assert forall|i: int, k: int| 0 <= i < p2.endpoints.len() && 0 <= k < last.endpoints.len()
            implies (#[trigger] p2.endpoints[i]).info.id != group_member_id(n as nat, mg, (#[trigger] last.endpoints[k]).id) by {
            let (gj, k2) = choose|gj: int, k2: int| 0 <= gj < prefix.len() && 0 <= k2 < prefix[gj].endpoints.len()
                && (#[trigger] p.endpoints[i]).info.id == #[trigger] member_internal(gj as nat, prefix[gj], k2);
            assert(prefix[gj] == gs[gj]);
            let x = last.endpoints[k].id;
            assert(mids[k] == x);
            assert(ids[pre_ids.len() + k] == x);
            lemma_group_ids_contain(prefix, gj, k2);
            if x == gs[gj].endpoints[k2].id {
                let w = choose|w: int| 0 <= w < pre_ids.len() && pre_ids[w] == x;
                assert(ids[w] == x);
            }
            lemma_member_ids_differ(gj as nat, gs[gj], k2, n as nat, last, k);
        }
        assert forall|k1: int, k2: int| 0 <= k1 < last.endpoints.len() && 0 <= k2 < last.endpoints.len() && k1 != k2
            implies group_member_id(n as nat, mg, (#[trigger] last.endpoints[k1]).id)
                != group_member_id(n as nat, mg, (#[trigger] last.endpoints[k2]).id) by {
            assert(mids[k1] == last.endpoints[k1].id && mids[k2] == last.endpoints[k2].id);
            assert(ids[pre_ids.len() + k1] == mids[k1] && ids[pre_ids.len() + k2] == mids[k2]);
            lemma_member_ids_differ(n as nat, last, k1, n as nat, last, k2);
        }
        lemma_register_members_fresh(p2, n as nat, mg, last.labels, last.endpoints, sem);
        let r = register_groups(s, gs);
        assert(r == register_members(p2, n as nat, mg, last.labels, last.endpoints, sem));
        let base = p.endpoints.len();
        assert forall|i: int, j: int|
            #![trigger r.endpoints[i], r.endpoints[j]]
            0 <= i < r.endpoints.len() && 0 <= j < r.endpoints.len() && i != j
            implies r.endpoints[i].info.id != r.endpoints[j].info.id by {
            if i < base && j < base {
                assert(r.endpoints[i] == p.endpoints[i] && r.endpoints[j] == p.endpoints[j]);
            } else if i < base {
                let kj = j - base;
                assert(r.endpoints[i] == p2.endpoints[i]);
                assert(r.endpoints[base + kj].info.id == group_member_id(n as nat, mg, last.endpoints[kj].id));
            } else if j < base {
                let ki = i - base;
                assert(r.endpoints[j] == p2.endpoints[j]);
                assert(r.endpoints[base + ki].info.id == group_member_id(n as nat, mg, last.endpoints[ki].id));
            } else {
                let ki = i - base;
                let kj = j - base;
                assert(r.endpoints[base + ki].info.id == group_member_id(n as nat, mg, last.endpoints[ki].id));
                assert(r.endpoints[base + kj].info.id == group_member_id(n as nat, mg, last.endpoints[kj].id));
            }
        }
        assert forall|i: int| 0 <= i < r.endpoints.len() implies exists|gj: int, k: int|
            0 <= gj < gs.len() && 0 <= k < gs[gj].endpoints.len()
            && (#[trigger] r.endpoints[i]).info.id == #[trigger] member_internal(gj as nat, gs[gj], k) by {
            if i < base {
                assert(r.endpoints[i] == p.endpoints[i]);
                let (gj, k2) = choose|gj: int, k2: int| 0 <= gj < prefix.len() && 0 <= k2 < prefix[gj].endpoints.len()
                    && (#[trigger] p.endpoints[i]).info.id == #[trigger] member_internal(gj as nat, prefix[gj], k2);
                assert(prefix[gj] == gs[gj]);
                assert(r.endpoints[i].info.id == member_internal(gj as nat, gs[gj], k2));
            } else {
                let k = i - base;
                assert(r.endpoints[base + k].info.id == group_member_id(n as nat, mg, last.endpoints[k].id));
                assert(member_internal(n as nat, gs[n], k) == member_internal(n as nat, last, k));
                assert(r.endpoints[i].info.id == member_internal(n as nat, gs[n], k));
            }
        }
        assert forall|gi: int, k: int| 0 <= gi < gs.len() && 0 <= k < gs[gi].endpoints.len() implies {
            let x = #[trigger] member_internal(gi as nat, gs[gi], k);
            &&& has_endpoint(r.endpoints, x)
            &&& entry_in(r.endpoints, x).semaphore == s.next_semaphore + gi
            &&& entry_in(r.endpoints, x).labels == crate::control_center::labels_opt(gs[gi].labels + gs[gi].endpoints[k].labels)
        } by {
            let x = member_internal(gi as nat, gs[gi], k);
            if gi == n {
                assert(x == group_member_id(n as nat, mg, last.endpoints[k].id));
                assert(r.endpoints[base + k].info.id == x);
                lemma_endpoint_index(r.endpoints, x, base + k);
            } else {
                assert(prefix[gi] == gs[gi]);
                assert(x == member_internal(gi as nat, prefix[gi], k));
                assert(has_endpoint(p.endpoints, x));
                let i = endpoint_index(p.endpoints, x);
                assert(p.endpoints[i].info.id == x);
                assert(r.endpoints[i] == p.endpoints[i]);
                lemma_endpoint_index(r.endpoints, x, i);
            }
        }
    }
}

/// A configuration of groups alone sets up, whatever serial ports are found,
/// each member under its group's id (mocks of group `i` belonging to
/// `MockGroup<i>`), with the group's labels followed by its own, and under the
/// semaphore numbered as its group: members of one group share it, members of
/// different groups never do. No user is connected yet.
pub proof fn law_groups_are_set_up(c: ConfigView, ports: Seq<Seq<char>>, gi: int, k: int, gj: int, k2: int)
    requires
        config_valid(c),
        c.endpoints.len() == 0,
        c.groups.len() < u64::MAX,
        0 <= gi < c.groups.len(),
        0 <= k < c.groups[gi].endpoints.len(),
        0 <= gj < c.groups.len(),
        0 <= k2 < c.groups[gj].endpoints.len(),
    ensures ({
        let m = model_from_config(c, ports);
        let g = c.groups[gi];
        let x = member_internal(gi as nat, g, k);
        let y = member_internal(gj as nat, c.groups[gj], k2);
        &&& has_endpoint(m.endpoints, x)
        &&& (g.endpoints.last().id is Mock ==> x == InternalEndpointIdView::Mock(
                MockIdView { user: crate::control_center::mock_group_owner(gi as nat), name: g.endpoints[k].id->Mock_0 }))
        &&& entry_of(m, x).labels == crate::control_center::labels_opt(g.labels + g.endpoints[k].labels)
        &&& entry_of(m, x).semaphore == gi
        &&& has_endpoint(m.endpoints, y)
        &&& (entry_of(m, x).semaphore == entry_of(m, y).semaphore <==> gi == gj)
        &&& m.users.len() == 0
    }),
{
    let empty = ControlCenterView { endpoints: Seq::empty(), users: Seq::empty(), next_semaphore: 0, share_mocks: false };
    let a = register_config_endpoints(empty, c.endpoints);
    assert(a == empty);
    lemma_no_duplicates(group_ids(c.groups));
    assert(groups_homogeneous(c.groups));
    lemma_register_groups_exact(a, c.groups);
    let b = register_groups(a, c.groups);
    let found = if c.auto_open_serial_ports { ports } else { Seq::empty() };
    lemma_register_ports(b, found);
    let g = c.groups[gi];
    let x = member_internal(gi as nat, g, k);
    let y = member_internal(gj as nat, c.groups[gj], k2);
    let m = model_from_config(c, ports);
    assert(m == register_ports(b, found));
    assert(has_endpoint(b.endpoints, x) && has_endpoint(b.endpoints, y));
    assert(entry_in(m.endpoints, x) == entry_in(b.endpoints, x));
    assert(entry_in(m.endpoints, y) == entry_in(b.endpoints, y));
    assert(m.users == b.users);
}


/// An endpoint that is not dangling is kept when a user leaves.
proof fn lemma_kept_keeps(eps: Seq<RegisteredView>, users: Seq<crate::control_center::UserEntryView>, k: int)
    requires
        0 <= k < eps.len(),
        !is_dangling(users, eps[k]),
    ensures
        kept_endpoints(eps, users).contains(eps[k]),
    decreases eps.len(),
{
    let p = eps.drop_last();
    let sub = kept_endpoints(p, users);
    let kept = kept_endpoints(eps, users);
    if k == eps.len() - 1 {
        assert(kept[kept.len() - 1] == eps[k]);
    } else {
        assert(p[k] == eps[k]);
        lemma_kept_keeps(p, users, k);
        let w = choose|w: int| 0 <= w < sub.len() && sub[w] == eps[k];
        assert(kept[w] == sub[w]);
    }
}

/// Endpoints of the configuration and serial ports found at start-up stay when
/// a user leaves, whatever they were used for: only mocks made on demand are
/// transient.
pub proof fn law_configured_endpoints_stay(s: ControlCenterView, user: Seq<char>, id: InternalEndpointIdView)
    requires
        cc_wf(s),
        has_user(s.users, user),
        has_endpoint(s.endpoints, id),
        !entry_of(s, id).on_demand,
    ensures
        has_endpoint(model_user_left(s, user).0.endpoints, id),
        entry_of(model_user_left(s, user).0, id) == entry_of(s, id),
{
    let users = s.users.remove(user_index(s.users, user));
    let k = endpoint_index(s.endpoints, id);
    lemma_kept_keeps(s.endpoints, users, k);
    let kept = kept_endpoints(s.endpoints, users);
    let w = choose|w: int| 0 <= w < kept.len() && kept[w] == s.endpoints[k];
    assert(model_user_left(s, user).0.endpoints == kept);
    crate::control_center::lemma_kept_wf(s.endpoints, users, s.next_semaphore);
    lemma_endpoint_index(kept, id, w);
}

/// Registering keeps every entry one of the configuration.
proof fn lemma_registry_insert_configured(eps: Seq<RegisteredView>, id: InternalEndpointIdView, labels: Option<Seq<Seq<char>>>, sem: u64)
    requires
        forall|i: int| 0 <= i < eps.len() ==> !(#[trigger] eps[i]).on_demand,
    ensures
        forall|i: int| 0 <= i < registry_insert(eps, id, labels, sem).len()
            ==> !(#[trigger] registry_insert(eps, id, labels, sem)[i]).on_demand,
{
    let r = registry_insert(eps, id, labels, sem);
    assert forall|i: int| 0 <= i < r.len() implies !(#[trigger] r[i]).on_demand by {
        if i < eps.len() && !(has_endpoint(eps, id) && i == endpoint_index(eps, id)) {
            assert(r[i] == eps[i]);
        }
    }
}

/// Whether no entry of a registry was made on demand.
spec fn all_configured(eps: Seq<RegisteredView>) -> bool {
    forall|i: int| 0 <= i < eps.len() ==> !(#[trigger] eps[i]).on_demand
}

proof fn lemma_config_endpoints_configured(s: ControlCenterView, eps: Seq<ConfigEndpointView>)
    requires
        all_configured(s.endpoints),
    ensures
        all_configured(register_config_endpoints(s, eps).endpoints),
    decreases eps.len(),
{
    if eps.len() > 0 {
        lemma_config_endpoints_configured(s, eps.drop_last());
        let p = register_config_endpoints(s, eps.drop_last());
        lemma_registry_insert_configured(p.endpoints, crate::control_center::config_internal_id(eps.last().id),
            crate::control_center::labels_opt(eps.last().labels), p.next_semaphore);
    }
}

proof fn lemma_members_configured(p: ControlCenterView, index: nat, mock_group: bool, group_labels: Seq<Seq<char>>,
    members: Seq<ConfigEndpointView>, sem: u64)
    requires
        all_configured(p.endpoints),
    ensures
        all_configured(register_members(p, index, mock_group, group_labels, members, sem).endpoints),
    decreases members.len(),
{
    if members.len() > 0 {
        lemma_members_configured(p, index, mock_group, group_labels, members.drop_last(), sem);
        let q = register_members(p, index, mock_group, group_labels, members.drop_last(), sem);
        let e = members.last();
        lemma_registry_insert_configured(q.endpoints, group_member_id(index, mock_group, e.id),
            crate::control_center::labels_opt(group_labels + e.labels), sem);
    }
}

proof fn lemma_groups_configured(s: ControlCenterView, gs: Seq<GroupView>)
    requires
        all_configured(s.endpoints),
    ensures
        all_configured(register_groups(s, gs).endpoints),
    decreases gs.len(),
{
    if gs.len() > 0 {
        lemma_groups_configured(s, gs.drop_last());
        let p = register_groups(s, gs.drop_last());
        let g = gs.last();
        let p2 = ControlCenterView { next_semaphore: (p.next_semaphore + 1) as u64, ..p };
        lemma_members_configured(p2, (gs.len() - 1) as nat, g.endpoints.last().id is Mock, g.labels, g.endpoints, p.next_semaphore);
    }
}

proof fn lemma_ports_configured(s: ControlCenterView, ports: Seq<Seq<char>>)
    requires
        all_configured(s.endpoints),
    ensures
        all_configured(register_ports(s, ports).endpoints),
    decreases ports.len(),
{
    if ports.len() > 0 {
        lemma_ports_configured(s, ports.drop_last());
        let p = register_ports(s, ports.drop_last());
        lemma_registry_insert_configured(p.endpoints, InternalEndpointIdView::Tty(ports.last()), None, p.next_semaphore);
    }
}

/// Every endpoint set up from a configuration (stand-alone, in a group, or a
/// serial port found at start-up) is one of the configuration, so it stays
/// when users leave.
pub proof fn law_set_up_endpoints_are_configured(c: ConfigView, ports: Seq<Seq<char>>, id: InternalEndpointIdView)
    requires
        has_endpoint(model_from_config(c, ports).endpoints, id),
    ensures
        !entry_of(model_from_config(c, ports), id).on_demand,
{
    let empty = ControlCenterView { endpoints: Seq::empty(), users: Seq::empty(), next_semaphore: 0, share_mocks: false };
    lemma_config_endpoints_configured(empty, c.endpoints);
    let a = register_config_endpoints(empty, c.endpoints);
    lemma_groups_configured(a, c.groups);
    let b = register_groups(a, c.groups);
    lemma_ports_configured(b, if c.auto_open_serial_ports { ports } else { Seq::empty() });
}


/// A sequence without repeats has no duplicates.
proof fn lemma_no_repeats_no_duplicates<E>(s: Seq<E>)
    requires
        s.no_duplicates(),
    ensures
        duplicates(s).len() == 0,
    decreases s.len(),
{
    if s.len() > 0 {
        let p = s.drop_last();
        assert(p.no_duplicates()) by {
            assert forall|i: int, j: int| 0 <= i < p.len() && 0 <= j < p.len() && i != j implies p[i] != p[j] by {
                assert(p[i] == s[i] && p[j] == s[j]);
            }
        }
        lemma_no_repeats_no_duplicates(p);
        lemma_occurrences_at_most_one(p, s.last());
        if p.contains(s.last()) {
            let w = choose|w: int| 0 <= w < p.len() && p[w] == s.last();
            assert(s[w] == s[s.len() - 1]);
        }
    }
}

/// A configuration is valid exactly when every group has members, no group
/// mixes mocks and serial ports, and no endpoint id occurs twice among the
/// members of all groups (twice within one group counts too).
pub proof fn law_valid_config_in_words(c: ConfigView)
    ensures
        config_valid(c) <==> {
            &&& forall|i: int| 0 <= i < c.groups.len() ==> (#[trigger] c.groups[i]).endpoints.len() > 0
            &&& forall|i: int| 0 <= i < c.groups.len() ==> !group_is_mixed(#[trigger] c.groups[i])
            &&& group_ids(c.groups).no_duplicates()
        },
{
    if group_ids(c.groups).no_duplicates() {
        lemma_no_repeats_no_duplicates(group_ids(c.groups));
    }
    if duplicates(group_ids(c.groups)).len() == 0 {
        lemma_no_duplicates(group_ids(c.groups));
    }
}


/// Asking control of a registered endpoint the user neither queues for nor
/// already controls (through its semaphore) succeeds, whatever else the user
/// holds or queues for: the target names that endpoint, its semaphore, and a
/// group holding it; nothing changes but what is asked.
pub proof fn law_control_of_a_free_endpoint_succeeds(s: ControlCenterView, user: Seq<char>, id: InternalEndpointIdView)
    requires
        cc_wf(s),
        has_user(s.users, user),
        has_endpoint(s.endpoints, id),
        forall|k: int| 0 <= k < state_of(s, user).in_queue_of.len() ==> (#[trigger] state_of(s, user).in_queue_of[k]).id != id,
        !state_of(s, user).in_control_of.contains(entry_of(s, id).semaphore),
    ensures
        model_control(s, user, id).1 is Ok,
        model_control(s, user, id).1->Ok_0.info.id == id,
        model_control(s, user, id).1->Ok_0.semaphore == entry_of(s, id).semaphore,
        contains_info_id(model_control(s, user, id).1->Ok_0.group, id),
        model_control(s, user, id).0 == s,
        model_control(s, user, id).2.len() == 0,
{
    assert(with_mock(s, id) == s);
    if contains_info_id(state_of(s, user).in_queue_of, id) {
        let k = choose|k: int| 0 <= k < state_of(s, user).in_queue_of.len() && (#[trigger] state_of(s, user).in_queue_of[k]).id == id;
        assert(state_of(s, user).in_queue_of[k].id != id);
    }
    let k = endpoint_index(s.endpoints, id);
    lemma_semaphore_members_exactly(s.endpoints, s.endpoints[k].semaphore);
    assert(semaphore_members(s.endpoints, s.endpoints[k].semaphore).contains(s.endpoints[k].info));
    let g = semaphore_members(s.endpoints, s.endpoints[k].semaphore);
    let w = choose|w: int| 0 <= w < g.len() && g[w] == s.endpoints[k].info;
    assert(g[w].id == id);
}


/// When a user leaves, every endpoint another user still holds control of
/// (through its semaphore) or queues for stays registered, unchanged.
pub proof fn law_endpoints_in_use_stay(s: ControlCenterView, user: Seq<char>, other: Seq<char>, id: InternalEndpointIdView)
    requires
        cc_wf(s),
        has_user(s.users, user),
        has_user(s.users, other),
        other != user,
        has_endpoint(s.endpoints, id),
        state_of(s, other).in_control_of.contains(entry_of(s, id).semaphore)
            || exists|k: int| 0 <= k < state_of(s, other).in_queue_of.len()
                && (#[trigger] state_of(s, other).in_queue_of[k]).id == id
                && state_of(s, other).in_queue_of[k].labels is None,
    ensures
        has_endpoint(model_user_left(s, user).0.endpoints, id),
        entry_of(model_user_left(s, user).0, id) == entry_of(s, id),
{
    let ku = user_index(s.users, user);
    let users = s.users.remove(ku);
    let o = user_index(s.users, other);
    assert(o != ku);
    let p = if o < ku { o } else { o - 1 };
    assert(users[p] == s.users[o]);
    let k = endpoint_index(s.endpoints, id);
    let e = s.endpoints[k];
    if state_of(s, other).in_control_of.contains(e.semaphore) {
        assert(users[p].state.in_control_of.contains(e.semaphore));
    } else {
        let q = choose|q: int| 0 <= q < state_of(s, other).in_queue_of.len()
            && (#[trigger] state_of(s, other).in_queue_of[q]).id == id
            && state_of(s, other).in_queue_of[q].labels is None;
        assert(users[p].state.in_queue_of[q].id == e.info.id);
        assert(crate::control_center::queued_unlabelled(users[p].state.in_queue_of, e.info.id));
    }
    assert(crate::control_center::is_active(users, e));
    lemma_kept_keeps(s.endpoints, users, k);
    let kept = kept_endpoints(s.endpoints, users);
    let w = choose|w: int| 0 <= w < kept.len() && kept[w] == s.endpoints[k];
    assert(model_user_left(s, user).0.endpoints == kept);
    crate::control_center::lemma_kept_wf(s.endpoints, users, s.next_semaphore);
    lemma_endpoint_index(kept, id, w);
}


/// Whether no two registry entries share a semaphore.
spec fn sems_distinct(eps: Seq<RegisteredView>) -> bool {
    forall|i: int, j: int| 0 <= i < eps.len() && 0 <= j < eps.len() && i != j
        ==> (#[trigger] eps[i]).semaphore != (#[trigger] eps[j]).semaphore
}

/// Whether every registry entry's semaphore is below a bound.
spec fn sems_below(eps: Seq<RegisteredView>, bound: u64) -> bool {
    forall|i: int| 0 <= i < eps.len() ==> (#[trigger] eps[i]).semaphore < bound
}

/// Registering stand-alone configured endpoints gives each a semaphore of its
/// own: no two entries share one, and each configured id is registered.
proof fn lemma_config_sems(s: ControlCenterView, eps: Seq<ConfigEndpointView>)
    requires
        endpoint_ids_unique(s.endpoints),
        sems_distinct(s.endpoints),
        sems_below(s.endpoints, s.next_semaphore),
        s.next_semaphore + eps.len() < u64::MAX,
    ensures ({
        let r = register_config_endpoints(s, eps);
        &&& endpoint_ids_unique(r.endpoints)
        &&& sems_distinct(r.endpoints)
        &&& sems_below(r.endpoints, r.next_semaphore)
        &&& r.next_semaphore == s.next_semaphore + eps.len()
        &&& forall|i: int| 0 <= i < eps.len() ==> has_endpoint(r.endpoints, crate::control_center::config_internal_id((#[trigger] eps[i]).id))
    }),
    decreases eps.len(),
{
    if eps.len() > 0 {
        let prefix = eps.drop_last();
        lemma_config_sems(s, prefix);
        let p = register_config_endpoints(s, prefix);
        let t = crate::control_center::config_internal_id(eps.last().id);
        let l = crate::control_center::labels_opt(eps.last().labels);
        let sem = p.next_semaphore;
        lemma_registry_insert(p.endpoints, t, l, sem);
        let r = register_config_endpoints(s, eps);
        assert(r.endpoints == registry_insert(p.endpoints, t, l, sem));
        let re = r.endpoints;
        if has_endpoint(p.endpoints, t) {
            let k = endpoint_index(p.endpoints, t);
            assert(re.len() == p.endpoints.len());
            assert forall|i: int| 0 <= i < re.len() && i != k implies #[trigger] re[i] == p.endpoints[i] by {}
            assert(re[k].semaphore == sem);
            assert forall|i: int, j: int| 0 <= i < re.len() && 0 <= j < re.len() && i != j
                implies (#[trigger] re[i]).semaphore != (#[trigger] re[j]).semaphore by {
                if i != k && j != k {
                    assert(re[i] == p.endpoints[i] && re[j] == p.endpoints[j]);
                } else if i == k {
                    assert(re[j] == p.endpoints[j]);
                } else {
                    assert(re[i] == p.endpoints[i]);
                }
            }
            assert forall|i: int| 0 <= i < re.len() implies (#[trigger] re[i]).semaphore < r.next_semaphore by {
                if i != k {
                    assert(re[i] == p.endpoints[i]);
                }
            }
        } else {
            assert(re.len() == p.endpoints.len() + 1);
            assert forall|i: int| 0 <= i < p.endpoints.len() implies #[trigger] re[i] == p.endpoints[i] by {}
            assert forall|i: int, j: int| 0 <= i < re.len() && 0 <= j < re.len() && i != j
                implies (#[trigger] re[i]).semaphore != (#[trigger] re[j]).semaphore by {
                if i < p.endpoints.len() && j < p.endpoints.len() {
                    assert(re[i] == p.endpoints[i] && re[j] == p.endpoints[j]);
                } else if i < p.endpoints.len() {
                    assert(re[i] == p.endpoints[i]);
                } else {
                    assert(re[j] == p.endpoints[j]);
                }
            }
            assert forall|i: int| 0 <= i < re.len() implies (#[trigger] re[i]).semaphore < r.next_semaphore by {
                if i < p.endpoints.len() {
                    assert(re[i] == p.endpoints[i]);
                }
            }
        }
        assert forall|i: int| 0 <= i < eps.len() implies has_endpoint(re, crate::control_center::config_internal_id((#[trigger] eps[i]).id)) by {
            if i < prefix.len() {
                assert(prefix[i] == eps[i]);
                let x = crate::control_center::config_internal_id(eps[i].id);
                if x != t {
                    assert(has_endpoint(p.endpoints, x));
                }
            }
        }
    }
}

/// Registering groups leaves every id that is a member of none of them as it was.
proof fn lemma_register_groups_others(s: ControlCenterView, gs: Seq<GroupView>)
    requires
        endpoint_ids_unique(s.endpoints),
    ensures
        endpoint_ids_unique(register_groups(s, gs).endpoints),
        forall|other: InternalEndpointIdView|
            (forall|gi: int, k: int| 0 <= gi < gs.len() && 0 <= k < gs[gi].endpoints.len()
                ==> other != #[trigger] member_internal(gi as nat, gs[gi], k))
            && has_endpoint(s.endpoints, other) ==> {
                &&& has_endpoint(register_groups(s, gs).endpoints, other)
                &&& #[trigger] entry_in(register_groups(s, gs).endpoints, other) == entry_in(s.endpoints, other)
            },
    decreases gs.len(),
{
    if gs.len() > 0 {
        let prefix = gs.drop_last();
        let n = gs.len() - 1;
        let g = gs.last();
        lemma_register_groups_others(s, prefix);
        let p = register_groups(s, prefix);
        let sem = p.next_semaphore;
        let p2 = ControlCenterView { next_semaphore: (sem + 1) as u64, ..p };
        let mg = g.endpoints.last().id is Mock;
        lemma_register_members(p2, n as nat, mg, g.labels, g.endpoints, sem);
        let r = register_groups(s, gs);
        assert(r == register_members(p2, n as nat, mg, g.labels, g.endpoints, sem));
        assert forall|other: InternalEndpointIdView|
            (forall|gi: int, k: int| 0 <= gi < gs.len() && 0 <= k < gs[gi].endpoints.len()
                ==> other != #[trigger] member_internal(gi as nat, gs[gi], k))
            && has_endpoint(s.endpoints, other) implies {
                &&& has_endpoint(r.endpoints, other)
                &&& #[trigger] entry_in(r.endpoints, other) == entry_in(s.endpoints, other)
            } by {
            assert forall|gi: int, k: int| 0 <= gi < prefix.len() && 0 <= k < prefix[gi].endpoints.len()
                implies other != #[trigger] member_internal(gi as nat, prefix[gi], k) by {
                assert(prefix[gi] == gs[gi]);
                assert(other != member_internal(gi as nat, gs[gi], k));
            }
            assert forall|k: int| 0 <= k < g.endpoints.len()
                implies other != group_member_id(n as nat, mg, #[trigger] g.endpoints[k].id) by {
                assert(g == gs[n]);
                assert(other != member_internal(n as nat, gs[n], k));
            }
        }
    }
}

/// Stand-alone endpoints of a configuration that belong to no group are each
/// guarded by a semaphore of their own, whatever serial ports are found:
/// controlling one never locks another.
pub proof fn law_stand_alone_endpoints_are_apart(c: ConfigView, ports: Seq<Seq<char>>, i: int, j: int)
    requires
        c.endpoints.len() < u64::MAX,
        0 <= i < c.endpoints.len(),
        0 <= j < c.endpoints.len(),
        crate::control_center::config_internal_id(c.endpoints[i].id) != crate::control_center::config_internal_id(c.endpoints[j].id),
        forall|gi: int, k: int| 0 <= gi < c.groups.len() && 0 <= k < c.groups[gi].endpoints.len() ==> {
            &&& #[trigger] member_internal(gi as nat, c.groups[gi], k) != crate::control_center::config_internal_id(c.endpoints[i].id)
            &&& member_internal(gi as nat, c.groups[gi], k) != crate::control_center::config_internal_id(c.endpoints[j].id)
        },
    ensures ({
        let m = model_from_config(c, ports);
        let x = crate::control_center::config_internal_id(c.endpoints[i].id);
        let y = crate::control_center::config_internal_id(c.endpoints[j].id);
        &&& has_endpoint(m.endpoints, x)
        &&& has_endpoint(m.endpoints, y)
        &&& entry_of(m, x).semaphore != entry_of(m, y).semaphore
    }),
{
    let empty = ControlCenterView { endpoints: Seq::empty(), users: Seq::empty(), next_semaphore: 0, share_mocks: false };
    lemma_config_sems(empty, c.endpoints);
    let a = register_config_endpoints(empty, c.endpoints);
    let x = crate::control_center::config_internal_id(c.endpoints[i].id);
    let y = crate::control_center::config_internal_id(c.endpoints[j].id);
    assert(has_endpoint(a.endpoints, x) && has_endpoint(a.endpoints, y));
    lemma_register_groups_others(a, c.groups);
    let b = register_groups(a, c.groups);
    assert(entry_in(b.endpoints, x) == entry_in(a.endpoints, x));
    assert(entry_in(b.endpoints, y) == entry_in(a.endpoints, y));
    let found = if c.auto_open_serial_ports { ports } else { Seq::empty() };
    lemma_register_ports(b, found);
    let m = model_from_config(c, ports);
    assert(m == register_ports(b, found));
    assert(entry_in(m.endpoints, x) == entry_in(b.endpoints, x));
    assert(entry_in(m.endpoints, y) == entry_in(b.endpoints, y));
    let kx = endpoint_index(a.endpoints, x);
    let ky = endpoint_index(a.endpoints, y);
    assert(a.endpoints[kx].info.id == x && a.endpoints[ky].info.id == y);
    assert(kx != ky);
}

} // verus!
