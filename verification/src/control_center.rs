//! The control center decides who observes and who controls which endpoint.
//!
//! It holds the registry of endpoints (with the semaphore that guards
//! exclusive control of each, shared within a group) and the state of every
//! connected user. Each request or piece of information is handled by a
//! function from the current state to the next state, a reply, and a list of
//! effects (events to publish, mock endpoints to create or remove) which the
//! server performs.

use vstd::prelude::*;

/// What holds of the control center across its operations.
pub mod laws;

use crate::endpoint::{
    InternalEndpointId, InternalEndpointIdView, InternalEndpointInfo, InternalEndpointInfoView,
    Labels, display_info, display_internal_id, display_labelled,
    duplicate_infos, duplicate_opt_labels, info_views, labelled_of_info, labels_superset,
    merge_opt_labels, merged_labels, opt_labels_view,
};
use crate::error::{Error, ErrorView};
use crate::events::user::{Event, EventView, UserEvent, UserEventView};
use crate::mock::{MockId, MockIdView};
use crate::text::owned;
use crate::user::User;

verus! {

/// An endpoint known to the control center.
///
/// `info` is its identity with the labels it is shown with; `labels` are the
/// labels requests are matched against. The two agree: an endpoint configured
/// in two places carries the labels of both (see [`registry_insert`]).
#[derive(Debug)]
pub struct RegisteredEndpoint {
    /// Identity and labels shown.
    pub info: InternalEndpointInfo,
    /// Labels matched against.
    pub labels: Option<Labels>,
    /// The semaphore guarding exclusive control; shared by a group.
    pub semaphore: u64,
    /// Whether it is a mock made on demand for a user's request, rather than
    /// an endpoint of the configuration or a serial port found at start-up.
    pub on_demand: bool,
}

/// The mathematical value of a [`RegisteredEndpoint`].
pub struct RegisteredView {
    /// Identity and labels shown.
    pub info: InternalEndpointInfoView,
    /// Labels matched against.
    pub labels: Option<Seq<Seq<char>>>,
    /// Semaphore.
    pub semaphore: u64,
    /// Made on demand.
    pub on_demand: bool,
}

impl View for RegisteredEndpoint {
    type V = RegisteredView;

    open spec fn view(&self) -> RegisteredView {
        RegisteredView { info: self.info@, labels: opt_labels_view(self.labels), semaphore: self.semaphore, on_demand: self.on_demand }
    }
}

/// What the control center knows about a connected user.
#[derive(Debug)]
pub struct UserState {
    /// Endpoints the user observes.
    pub observing_endpoints: Vec<InternalEndpointInfo>,
    /// Whether the user receives all events.
    pub observing_user_events: bool,
    /// Endpoints the user queues for.
    pub in_queue_of: Vec<InternalEndpointInfo>,
    /// Semaphores the user holds.
    pub in_control_of: Vec<u64>,
}

/// The mathematical value of a [`UserState`].
pub struct UserStateView {
    /// Observed endpoints.
    pub observing: Seq<InternalEndpointInfoView>,
    /// Receives all events.
    pub observing_user_events: bool,
    /// Queued endpoints.
    pub in_queue_of: Seq<InternalEndpointInfoView>,
    /// Held semaphores.
    pub in_control_of: Seq<u64>,
}

impl View for UserState {
    type V = UserStateView;

    open spec fn view(&self) -> UserStateView {
        UserStateView {
            observing: info_views(self.observing_endpoints@),
            observing_user_events: self.observing_user_events,
            in_queue_of: info_views(self.in_queue_of@),
            in_control_of: self.in_control_of@,
        }
    }
}

/// A user and their state.
#[derive(Debug)]
pub struct UserEntry {
    /// The user.
    pub user: User,
    /// Their state.
    pub state: UserState,
}

/// The mathematical value of a [`UserEntry`].
pub struct UserEntryView {
    /// The user's name.
    pub name: Seq<char>,
    /// Their state.
    pub state: UserStateView,
}

impl View for UserEntry {
    type V = UserEntryView;

    open spec fn view(&self) -> UserEntryView {
        UserEntryView { name: self.user@, state: self.state@ }
    }
}

/// The control center's state.
#[derive(Debug)]
pub struct ControlCenter {
    /// The endpoint registry, in registration order.
    pub endpoints: Vec<RegisteredEndpoint>,
    /// The connected users, in arrival order.
    pub users: Vec<UserEntry>,
    /// The next unused semaphore.
    pub next_semaphore: u64,
    /// Whether a mock of a given name is one endpoint shared by every user,
    /// rather than each user's own.
    pub share_mocks: bool,
}

/// The mathematical value of a [`ControlCenter`].
pub struct ControlCenterView {
    /// Registry.
    pub endpoints: Seq<RegisteredView>,
    /// Users.
    pub users: Seq<UserEntryView>,
    /// Next unused semaphore.
    pub next_semaphore: u64,
    /// Whether mocks are shared between users.
    pub share_mocks: bool,
}

/// The views of registry entries.
pub open spec fn registered_views(v: Seq<RegisteredEndpoint>) -> Seq<RegisteredView> {
    v.map_values(|e: RegisteredEndpoint| e@)
}

/// The views of user entries.
pub open spec fn user_entry_views(v: Seq<UserEntry>) -> Seq<UserEntryView> {
    v.map_values(|e: UserEntry| e@)
}

impl View for ControlCenter {
    type V = ControlCenterView;

    open spec fn view(&self) -> ControlCenterView {
        ControlCenterView {
            endpoints: registered_views(self.endpoints@),
            users: user_entry_views(self.users@),
            next_semaphore: self.next_semaphore,
            share_mocks: self.share_mocks,
        }
    }
}

/// Something the server must do after the control center decided.
#[derive(Debug)]
pub enum Effect {
    /// Publish this user event.
    Emit(UserEvent),
    /// Start a mock endpoint under this id, guarded by this semaphore.
    CreateMock(MockId, u64),
    /// Stop and forget this endpoint.
    RemoveEndpoint(InternalEndpointId),
}

/// The mathematical value of an [`Effect`].
pub enum EffectView {
    /// Publish.
    Emit(UserEventView),
    /// Create a mock.
    CreateMock(MockIdView, u64),
    /// Remove an endpoint.
    RemoveEndpoint(InternalEndpointIdView),
}

impl View for Effect {
    type V = EffectView;

    open spec fn view(&self) -> EffectView {
        match self {
            Effect::Emit(e) => EffectView::Emit(e@),
            Effect::CreateMock(m, s) => EffectView::CreateMock(m@, *s),
            Effect::RemoveEndpoint(id) => EffectView::RemoveEndpoint(id@),
        }
    }
}

/// The views of effects.
pub open spec fn effect_views(v: Seq<Effect>) -> Seq<EffectView> {
    v.map_values(|e: Effect| e@)
}

/// An event for a user, as an effect.
pub open spec fn emit(user: Seq<char>, e: EventView) -> EffectView {
    EffectView::Emit(UserEventView { user, event: e })
}

/// The view of a result.
pub open spec fn result_view<T: View>(r: Result<T, Error>) -> Result<T::V, ErrorView> {
    match r {
        Ok(t) => Ok(t@),
        Err(e) => Err(e@),
    }
}

/// Whether the registry has an endpoint with this id.
pub open spec fn has_endpoint(eps: Seq<RegisteredView>, id: InternalEndpointIdView) -> bool {
    exists|i: int| 0 <= i < eps.len() && (#[trigger] eps[i]).info.id == id
}

/// The position of the endpoint with this id.
pub open spec fn endpoint_index(eps: Seq<RegisteredView>, id: InternalEndpointIdView) -> int {
    choose|i: int| 0 <= i < eps.len() && (#[trigger] eps[i]).info.id == id
}

/// No two registry entries share an id.
pub open spec fn endpoint_ids_unique(eps: Seq<RegisteredView>) -> bool {
    forall|i: int, j: int|
        #![trigger eps[i], eps[j]]
        0 <= i < eps.len() && 0 <= j < eps.len() && i != j ==> eps[i].info.id != eps[j].info.id
}

/// Whether a user with this name is connected.
pub open spec fn has_user(us: Seq<UserEntryView>, name: Seq<char>) -> bool {
    exists|i: int| 0 <= i < us.len() && (#[trigger] us[i]).name == name
}

/// The position of the user with this name.
pub open spec fn user_index(us: Seq<UserEntryView>, name: Seq<char>) -> int {
    choose|i: int| 0 <= i < us.len() && (#[trigger] us[i]).name == name
}

/// No two users share a name.
pub open spec fn user_names_unique(us: Seq<UserEntryView>) -> bool {
    forall|i: int, j: int|
        #![trigger us[i], us[j]]
        0 <= i < us.len() && 0 <= j < us.len() && i != j ==> us[i].name != us[j].name
}

/// Whether a list of infos names this endpoint.
pub open spec fn contains_info_id(s: Seq<InternalEndpointInfoView>, id: InternalEndpointIdView) -> bool {
    exists|i: int| 0 <= i < s.len() && (#[trigger] s[i]).id == id
}

/// No two infos of a list name the same endpoint.
pub open spec fn info_ids_unique(s: Seq<InternalEndpointInfoView>) -> bool {
    forall|i: int, j: int|
        #![trigger s[i], s[j]]
        0 <= i < s.len() && 0 <= j < s.len() && i != j ==> s[i].id != s[j].id
}

/// A user's state lists each endpoint and semaphore at most once.
pub open spec fn user_state_wf(st: UserStateView) -> bool {
    &&& info_ids_unique(st.observing)
    &&& info_ids_unique(st.in_queue_of)
    &&& st.in_control_of.no_duplicates()
}

/// No semaphore is held by two users: each endpoint has at most one controller.
pub open spec fn control_exclusive(us: Seq<UserEntryView>) -> bool {
    forall|i: int, j: int, sem: u64|
        #![trigger us[i].state.in_control_of.contains(sem), us[j].state.in_control_of.contains(sem)]
        0 <= i < us.len() && 0 <= j < us.len() && i != j && us[i].state.in_control_of.contains(sem)
            ==> !us[j].state.in_control_of.contains(sem)
}

/// Nobody holds this semaphore.
pub open spec fn semaphore_free(us: Seq<UserEntryView>, sem: u64) -> bool {
    forall|u: int| 0 <= u < us.len() ==> !(#[trigger] us[u]).state.in_control_of.contains(sem)
}

/// Replacing a user's entry by one holding the same semaphores keeps control exclusive.
proof fn lemma_exclusive_update(us: Seq<UserEntryView>, k: int, e: UserEntryView)
    requires
        control_exclusive(us),
        0 <= k < us.len(),
        e.state.in_control_of == us[k].state.in_control_of,
    ensures
        control_exclusive(us.update(k, e)),
{
    let n = us.update(k, e);
    assert forall|i: int, j: int, sem: u64|
        #![trigger n[i].state.in_control_of.contains(sem), n[j].state.in_control_of.contains(sem)]
        0 <= i < n.len() && 0 <= j < n.len() && i != j && n[i].state.in_control_of.contains(sem)
        implies !n[j].state.in_control_of.contains(sem) by {
        assert(n[i].state.in_control_of == us[i].state.in_control_of);
        assert(n[j].state.in_control_of == us[j].state.in_control_of);
        assert(us[i].state.in_control_of.contains(sem));
    }
}

/// Replacing a user's entry keeps a semaphore free when the entry holds the same semaphores.
proof fn lemma_free_update(us: Seq<UserEntryView>, k: int, e: UserEntryView, sem: u64)
    requires
        semaphore_free(us, sem),
        0 <= k < us.len(),
        e.state.in_control_of == us[k].state.in_control_of,
    ensures
        semaphore_free(us.update(k, e), sem),
{
    let n = us.update(k, e);
    assert forall|u: int| 0 <= u < n.len() implies !(#[trigger] n[u]).state.in_control_of.contains(sem) by {
        assert(n[u].state.in_control_of == us[u].state.in_control_of);
    }
}

/// A user taking a free semaphore keeps control exclusive.
proof fn lemma_exclusive_take(us: Seq<UserEntryView>, k: int, e: UserEntryView, sem: u64)
    requires
        control_exclusive(us),
        semaphore_free(us, sem),
        0 <= k < us.len(),
        e.state.in_control_of == us[k].state.in_control_of.push(sem),
    ensures
        control_exclusive(us.update(k, e)),
{
    let n = us.update(k, e);
    assert forall|i: int, j: int, x: u64|
        #![trigger n[i].state.in_control_of.contains(x), n[j].state.in_control_of.contains(x)]
        0 <= i < n.len() && 0 <= j < n.len() && i != j && n[i].state.in_control_of.contains(x)
        implies !n[j].state.in_control_of.contains(x) by {
        if x == sem {
            if i == k {
                assert(n[j] == us[j]);
                assert(!us[j].state.in_control_of.contains(sem));
            } else {
                assert(n[i] == us[i]);
                assert(!us[i].state.in_control_of.contains(sem));
            }
        } else {
            if i == k {
                let t = n[i].state.in_control_of;
                let w = choose|w: int| 0 <= w < t.len() && t[w] == x;
                assert(us[k].state.in_control_of[w] == x);
                assert(us[k].state.in_control_of.contains(x));
                assert(n[j] == us[j]);
            } else if j == k {
                assert(n[i] == us[i]);
                assert(us[i].state.in_control_of.contains(x));
                if n[j].state.in_control_of.contains(x) {
                    let t = n[j].state.in_control_of;
                    let w = choose|w: int| 0 <= w < t.len() && t[w] == x;
                    assert(us[k].state.in_control_of[w] == x);
                    assert(us[k].state.in_control_of.contains(x));
                }
            } else {
                assert(n[i] == us[i]);
                assert(n[j] == us[j]);
                assert(us[i].state.in_control_of.contains(x));
            }
        }
    }
}



/// The control center's invariant.
pub open spec fn cc_wf(s: ControlCenterView) -> bool {
    &&& endpoint_ids_unique(s.endpoints)
    &&& user_names_unique(s.users)
    &&& control_exclusive(s.users)
    &&& forall|i: int| 0 <= i < s.endpoints.len() ==> (#[trigger] s.endpoints[i]).semaphore < s.next_semaphore
    &&& forall|i: int| 0 <= i < s.users.len() ==> user_state_wf((#[trigger] s.users[i]).state)
}

/// The state of a connected user.
pub open spec fn state_of(s: ControlCenterView, name: Seq<char>) -> UserStateView {
    s.users[user_index(s.users, name)].state
}

/// Replace the state of a connected user.
pub open spec fn with_state(s: ControlCenterView, name: Seq<char>, st: UserStateView) -> ControlCenterView {
    ControlCenterView {
        users: s.users.update(user_index(s.users, name), UserEntryView { name, state: st }),
        ..s
    }
}

/// The entry registered under an id.
pub open spec fn entry_of(s: ControlCenterView, id: InternalEndpointIdView) -> RegisteredView {
    s.endpoints[endpoint_index(s.endpoints, id)]
}

/// The info of a registered endpoint: its id with its current labels.
pub open spec fn info_of(s: ControlCenterView, id: InternalEndpointIdView) -> InternalEndpointInfoView {
    InternalEndpointInfoView { id, labels: entry_of(s, id).labels }
}

/// The state after making sure a mock endpoint exists: an unknown mock is
/// registered without labels under a fresh semaphore, as made on demand.
pub open spec fn with_mock(s: ControlCenterView, id: InternalEndpointIdView) -> ControlCenterView {
    if id is Mock && !has_endpoint(s.endpoints, id) {
        ControlCenterView {
            endpoints: s.endpoints.push(RegisteredView {
                info: InternalEndpointInfoView { id, labels: None },
                labels: None,
                semaphore: s.next_semaphore,
                on_demand: true,
            }),
            next_semaphore: (s.next_semaphore + 1) as u64,
            ..s
        }
    } else {
        s
    }
}

/// The effects of making sure a mock endpoint exists.
pub open spec fn mock_effects(s: ControlCenterView, id: InternalEndpointIdView) -> Seq<EffectView> {
    if id is Mock && !has_endpoint(s.endpoints, id) {
        seq![EffectView::CreateMock(id->Mock_0, s.next_semaphore)]
    } else {
        Seq::empty()
    }
}

/// The error for an unknown endpoint.
pub open spec fn no_such_endpoint(id: InternalEndpointIdView) -> ErrorView {
    ErrorView::NoSuchEndpoint(display_internal_id(id))
}

/// The message for observing an endpoint twice.
pub open spec fn already_observing_message(user: Seq<char>, info: InternalEndpointInfoView) -> Seq<char> {
    "`"@ + user + "` is already observing endpoint `"@ + display_labelled(labelled_of_info(info)) + "`"@
}

/// Observing an endpoint: unknown mocks are created; unknown ttys are an error;
/// observing twice is superfluous; otherwise the user now observes it.
pub open spec fn model_observe(s: ControlCenterView, user: Seq<char>, id: InternalEndpointIdView)
    -> (ControlCenterView, Result<InternalEndpointInfoView, ErrorView>, Seq<EffectView>)
{
    let m = with_mock(s, id);
    let fx = mock_effects(s, id);
    if !has_endpoint(m.endpoints, id) {
        (m, Err(no_such_endpoint(id)), fx)
    } else {
        let info = info_of(m, id);
        let st = state_of(m, user);
        if contains_info_id(st.observing, id) {
            (m, Err(ErrorView::SuperfluousRequest(already_observing_message(user, info))), fx)
        } else {
            (
                with_state(m, user, UserStateView { observing: st.observing.push(info), ..st }),
                Ok(info),
                fx.push(emit(user, EventView::Observing(seq![info]))),
            )
        }
    }
}

/// Subscribing to all events: allowed once per user.
pub open spec fn model_subscribe(s: ControlCenterView, user: Seq<char>)
    -> (ControlCenterView, Result<(), ErrorView>)
{
    let st = state_of(s, user);
    if st.observing_user_events {
        (s, Err(ErrorView::BadUsage("User is already subscribed to user events"@)))
    } else {
        (with_state(s, user, UserStateView { observing_user_events: true, ..st }), Ok(()))
    }
}

/// A fresh user state.
pub open spec fn empty_user_state() -> UserStateView {
    UserStateView {
        observing: Seq::empty(),
        observing_user_events: false,
        in_queue_of: Seq::empty(),
        in_control_of: Seq::empty(),
    }
}

impl UserState {
    /// A fresh user state.
    pub fn new() -> (st: Self)
        ensures
            st@ == empty_user_state(),
    {
        let st = UserState {
            observing_endpoints: Vec::new(),
            observing_user_events: false,
            in_queue_of: Vec::new(),
            in_control_of: Vec::new(),
        };
        proof {
            assert(info_views(st.observing_endpoints@) =~= Seq::<InternalEndpointInfoView>::empty());
            assert(info_views(st.in_queue_of@) =~= Seq::<InternalEndpointInfoView>::empty());
        }
        st
    }
}

/// Find the position of an info with this id in a list.
pub fn position_of_info(v: &Vec<InternalEndpointInfo>, id: &InternalEndpointId) -> (p: Option<usize>)
    ensures
        match p {
            Some(i) => i < v@.len() && v@[i as int]@.id == id@,
            None => !contains_info_id(info_views(v@), id@),
        },
{
    let mut i: usize = 0;
    while i < v.len()
        invariant
            i <= v@.len(),
            forall|j: int| 0 <= j < i ==> (#[trigger] v@[j])@.id != id@,
        decreases v@.len() - i,
    {
        if v[i].id.same_as(id) {
            return Some(i);
        }
        i += 1;
    }
    proof {
        if contains_info_id(info_views(v@), id@) {
            let k = choose|k: int| 0 <= k < info_views(v@).len() && (#[trigger] info_views(v@)[k]).id == id@;
            assert(v@[k]@.id != id@);
        }
    }
    None
}

impl ControlCenter {
    /// The invariant.
    pub open spec fn wf(&self) -> bool {
        cc_wf(self@)
    }

    /// A control center without endpoints or users.
    pub fn empty() -> (cc: Self)
        ensures
            cc.wf(),
            cc@.endpoints.len() == 0,
            cc@.users.len() == 0,
            cc@.next_semaphore == 0,
            !cc@.share_mocks,
    {
        ControlCenter { endpoints: Vec::new(), users: Vec::new(), next_semaphore: 0, share_mocks: false }
    }

    /// Whether another semaphore can be handed out.
    pub fn can_allocate_semaphore(&self) -> (b: bool)
        ensures
            b == (self@.next_semaphore < u64::MAX),
    {
        self.next_semaphore < u64::MAX
    }

    /// The position of the endpoint with this id, if registered.
    pub fn endpoint_position(&self, id: &InternalEndpointId) -> (p: Option<usize>)
        requires
            endpoint_ids_unique(self@.endpoints),
        ensures
            match p {
                Some(i) => has_endpoint(self@.endpoints, id@) && i as int == endpoint_index(self@.endpoints, id@),
                None => !has_endpoint(self@.endpoints, id@),
            },
    {
        let mut i: usize = 0;
        while i < self.endpoints.len()
            invariant
                i <= self.endpoints@.len(),
                endpoint_ids_unique(self@.endpoints),
                forall|j: int| 0 <= j < i ==> (#[trigger] self@.endpoints[j]).info.id != id@,
            decreases self.endpoints@.len() - i,
        {
            if self.endpoints[i].info.id.same_as(id) {
                proof {
                    assert(self@.endpoints[i as int].info.id == id@);
                    let k = endpoint_index(self@.endpoints, id@);
                    assert(self@.endpoints[k].info.id == id@);
                    if k != i as int {
                        assert(self@.endpoints[k].info.id != self@.endpoints[i as int].info.id);
                    }
                }
                return Some(i);
            }
            i += 1;
        }
        None
    }

    /// The position of this user, if connected.
    pub fn user_position(&self, user: &User) -> (p: Option<usize>)
        requires
            user_names_unique(self@.users),
        ensures
            match p {
                Some(i) => has_user(self@.users, user@) && i as int == user_index(self@.users, user@),
                None => !has_user(self@.users, user@),
            },
    {
        let mut i: usize = 0;
        while i < self.users.len()
            invariant
                i <= self.users@.len(),
                user_names_unique(self@.users),
                forall|j: int| 0 <= j < i ==> (#[trigger] self@.users[j]).name != user@,
            decreases self.users@.len() - i,
        {
            if self.users[i].user.same_as(user) {
                proof {
                    assert(self@.users[i as int].name == user@);
                    let k = user_index(self@.users, user@);
                    assert(self@.users[k].name == user@);
                    if k != i as int {
                        assert(self@.users[k].name != self@.users[i as int].name);
                    }
                }
                return Some(i);
            }
            i += 1;
        }
        None
    }

    /// Whether this user is connected.
    pub fn knows_user(&self, user: &User) -> (b: bool)
        requires
            self.wf(),
        ensures
            b == has_user(self@.users, user@),
    {
        self.user_position(user).is_some()
    }

    /// A user arrived.
    pub fn user_arrived(&mut self, user: &User, effects: &mut Vec<Effect>)
        requires
            old(self).wf(),
            !has_user(old(self)@.users, user@),
        ensures
            final(self).wf(),
            final(self)@ == (ControlCenterView {
                users: old(self)@.users.push(UserEntryView { name: user@, state: empty_user_state() }),
                ..old(self)@
            }),
            effect_views(final(effects)@) == effect_views(old(effects)@).push(emit(user@, EventView::Connected)),
    {
        let ghost before = self@;
        self.users.push(UserEntry { user: user.duplicate(), state: UserState::new() });
        effects.push(Effect::Emit(UserEvent { user: user.duplicate(), event: Event::Connected }));
        proof {
            assert(user_entry_views(self.users@) =~= before.users.push(UserEntryView { name: user@, state: empty_user_state() }));
            assert(effect_views(effects@) =~= effect_views(old(effects)@).push(emit(user@, EventView::Connected)));
            let s = self@;
            assert forall|i: int, j: int|
                #![trigger s.users[i], s.users[j]]
                0 <= i < s.users.len() && 0 <= j < s.users.len() && i != j implies s.users[i].name != s.users[j].name by {
                if i < before.users.len() && j < before.users.len() {
                    assert(s.users[i] == before.users[i]);
                    assert(s.users[j] == before.users[j]);
                } else if i < before.users.len() {
                    assert(s.users[i] == before.users[i]);
                    assert(before.users[i].name != user@);
                } else {
                    assert(s.users[j] == before.users[j]);
                    assert(before.users[j].name != user@);
                }
            }
            assert(forall|i: int| 0 <= i < before.users.len() ==> s.users[i] == before.users[i]);
        }
    }

    /// Make sure a mock endpoint exists, creating it when unknown.
    fn ensure_mock(&mut self, id: &InternalEndpointId, effects: &mut Vec<Effect>)
        requires
            old(self).wf(),
            old(self)@.next_semaphore < u64::MAX,
        ensures
            final(self).wf(),
            final(self)@ == with_mock(old(self)@, id@),
            effect_views(final(effects)@) == effect_views(old(effects)@) + mock_effects(old(self)@, id@),
    {
        match id {
            InternalEndpointId::Mock(mock_id) => {
                if self.endpoint_position(id).is_none() {
                    let ghost before = self@;
                    let sem = self.next_semaphore;
                    self.endpoints.push(RegisteredEndpoint {
                        info: InternalEndpointInfo::new(id.duplicate(), None),
                        labels: None,
                        semaphore: sem,
                        on_demand: true,
                    });
                    self.next_semaphore = sem + 1;
                    effects.push(Effect::CreateMock(mock_id.duplicate(), sem));
                    proof {
                        let s = self@;
                        let e = RegisteredView {
                            info: InternalEndpointInfoView { id: id@, labels: None },
                            labels: None,
                            semaphore: sem,
                            on_demand: true,
                        };
                        assert(s.endpoints =~= before.endpoints.push(e));
                        assert(effect_views(effects@) =~= effect_views(old(effects)@) + mock_effects(before, id@));
                        assert forall|i: int, j: int|
                            #![trigger s.endpoints[i], s.endpoints[j]]
                            0 <= i < s.endpoints.len() && 0 <= j < s.endpoints.len() && i != j
                            implies s.endpoints[i].info.id != s.endpoints[j].info.id by {
                            if i < before.endpoints.len() && j < before.endpoints.len() {
                                assert(s.endpoints[i] == before.endpoints[i]);
                                assert(s.endpoints[j] == before.endpoints[j]);
                            } else if i < before.endpoints.len() {
                                assert(s.endpoints[i] == before.endpoints[i]);
                            } else {
                                assert(s.endpoints[j] == before.endpoints[j]);
                            }
                        }
                        assert forall|i: int| 0 <= i < s.endpoints.len() implies (#[trigger] s.endpoints[i]).semaphore < s.next_semaphore by {
                            if i < before.endpoints.len() {
                                assert(s.endpoints[i] == before.endpoints[i]);
                            }
                        }
                    }
                } else {
                    proof {
                        assert(effect_views(effects@) =~= effect_views(old(effects)@) + mock_effects(old(self)@, id@));
                    }
                }
            },
            InternalEndpointId::Tty(_) => {
                proof {
                    assert(effect_views(effects@) =~= effect_views(old(effects)@) + mock_effects(old(self)@, id@));
                }
            },
        }
    }

    /// Observe an endpoint. Unknown mocks are created on the spot.
    /// On success the info is returned; the server then forwards the endpoint's messages.
    pub fn observe(&mut self, user: &User, id: InternalEndpointId, effects: &mut Vec<Effect>)
        -> (r: Result<InternalEndpointInfo, Error>)
        requires
            old(self).wf(),
            has_user(old(self)@.users, user@),
            old(self)@.next_semaphore < u64::MAX,
        ensures
            final(self).wf(),
            final(self)@ == model_observe(old(self)@, user@, id@).0,
            result_view(r) == model_observe(old(self)@, user@, id@).1,
            effect_views(final(effects)@) == effect_views(old(effects)@) + model_observe(old(self)@, user@, id@).2,
    {
        self.ensure_mock(&id, effects);
        let ghost m = self@;
        let pos = self.endpoint_position(&id);
        match pos {
            None => {
                let msg = id.display();
                Err(Error::NoSuchEndpoint(msg))
            },
            Some(ei) => {
                let info = InternalEndpointInfo::new(id.duplicate(), duplicate_opt_labels(&self.endpoints[ei].labels));
                assert(info@ == info_of(m, id@));
                let ui = match self.user_position(user) {
                    Some(ui) => ui,
                    None => { proof { assert(has_user(m.users, user@)); } return Err(Error::InternalIssue(owned(""))); },
                };
                let already = position_of_info(&self.users[ui].state.observing_endpoints, &id);
                if already.is_some() {
                    proof {
                        let k = already.unwrap() as int;
                        assert(state_of(m, user@).observing[k].id == id@);
                        reveal_strlit("`");
                        reveal_strlit("` is already observing endpoint `");
                    }
                    let mut msg = owned("`");
                    let name = user.display();
                    msg.append(name.as_str());
                    msg.append("` is already observing endpoint `");
                    let shown = info.to_labelled().display();
                    msg.append(shown.as_str());
                    msg.append("`");
                    return Err(Error::SuperfluousRequest(msg));
                }
                let ghost st = state_of(m, user@);
                proof {
                    assert(m.users[ui as int].state == st);
                    assert(info_views(self.users@[ui as int].state.observing_endpoints@) == st.observing);
                    assert(!contains_info_id(st.observing, id@));
                }
                let ghost old_users = self.users@;
                let ghost old_obs = self.users@[ui as int].state.observing_endpoints@;
                let d = info.duplicate();
                self.users[ui].state.observing_endpoints.push(d);
                let mut one: Vec<InternalEndpointInfo> = Vec::new();
                one.push(info.duplicate());
                let ghost before_fx = effects@;
                effects.push(Effect::Emit(UserEvent { user: user.duplicate(), event: Event::Observing(one) }));
                proof {
                    let s = self@;
                    let new_st = UserStateView { observing: st.observing.push(info@), ..st };
                    assert(self.users@[ui as int].state.observing_endpoints@ == old_obs.push(d));
                    assert(info_views(old_obs.push(d)) =~= info_views(old_obs).push(d@));
                    assert(self.users@[ui as int]@ == UserEntryView { name: user@, state: new_st });
                    assert forall|j: int| 0 <= j < self.users@.len() && j != ui as int implies self.users@[j] == old_users[j] by {}
                    assert(s.users =~= m.users.update(ui as int, UserEntryView { name: user@, state: new_st }));
                    assert(s.endpoints == m.endpoints);
                    assert(info_views(one@) =~= seq![info@]);
                    assert(effect_views(effects@) =~= effect_views(before_fx).push(emit(user@, EventView::Observing(seq![info@]))));
                    assert(effect_views(effects@) =~= effect_views(old(effects)@) + model_observe(old(self)@, user@, id@).2);
                    assert(user_state_wf(new_st)) by {
                        assert forall|i: int, j: int|
                            #![trigger new_st.observing[i], new_st.observing[j]]
                            0 <= i < new_st.observing.len() && 0 <= j < new_st.observing.len() && i != j
                            implies new_st.observing[i].id != new_st.observing[j].id by {
                            if i < st.observing.len() && j < st.observing.len() {
                                assert(new_st.observing[i] == st.observing[i]);
                                assert(new_st.observing[j] == st.observing[j]);
                            } else if i < st.observing.len() {
                                assert(new_st.observing[i] == st.observing[i]);
                                assert(!contains_info_id(st.observing, id@));
                            } else {
                                assert(new_st.observing[j] == st.observing[j]);
                                assert(!contains_info_id(st.observing, id@));
                            }
                        }
                    }
                    assert forall|i: int, j: int|
                        #![trigger s.users[i], s.users[j]]
                        0 <= i < s.users.len() && 0 <= j < s.users.len() && i != j implies s.users[i].name != s.users[j].name by {
                        assert(m.users[i].name == s.users[i].name);
                        assert(m.users[j].name == s.users[j].name);
                    }
                    assert forall|i: int| 0 <= i < s.users.len() implies user_state_wf((#[trigger] s.users[i]).state) by {
                        if i != ui as int {
                            assert(s.users[i] == m.users[i]);
                        }
                    }
                }
                Ok(info)
            },
        }
    }

    /// Start receiving all events; allowed once per user.
    pub fn subscribe_to_user_events(&mut self, user: &User) -> (r: Result<(), Error>)
        requires
            old(self).wf(),
            has_user(old(self)@.users, user@),
        ensures
            final(self).wf(),
            final(self)@ == model_subscribe(old(self)@, user@).0,
            result_view(r) == model_subscribe(old(self)@, user@).1,
    {
        let ui = match self.user_position(user) {
            Some(ui) => ui,
            None => { return Err(Error::InternalIssue(owned(""))); },
        };
        if self.users[ui].state.observing_user_events {
            proof { reveal_strlit("User is already subscribed to user events"); }
            return Err(Error::BadUsage(owned("User is already subscribed to user events")));
        }
        let ghost m = self@;
        self.users[ui].state.observing_user_events = true;
        proof {
            let s = self@;
            let st = state_of(m, user@);
            assert(s.users =~= m.users.update(ui as int, UserEntryView { name: user@, state: UserStateView { observing_user_events: true, ..st } }));
            assert forall|i: int, j: int|
                #![trigger s.users[i], s.users[j]]
                0 <= i < s.users.len() && 0 <= j < s.users.len() && i != j implies s.users[i].name != s.users[j].name by {
                assert(m.users[i].name == s.users[i].name);
                assert(m.users[j].name == s.users[j].name);
            }
            assert forall|i: int| 0 <= i < s.users.len() implies user_state_wf((#[trigger] s.users[i]).state) by {
                if i != ui as int {
                    assert(s.users[i] == m.users[i]);
                }
            }
        }
        Ok(())
    }
}


/// What a control request resolved to: the endpoint, the semaphore guarding it,
/// and every endpoint sharing that semaphore (its group).
#[derive(Debug)]
pub struct ControlTarget {
    /// The requested endpoint.
    pub info: InternalEndpointInfo,
    /// The semaphore to acquire.
    pub semaphore: u64,
    /// The endpoints controlled together.
    pub group: Vec<InternalEndpointInfo>,
}

/// The mathematical value of a [`ControlTarget`].
pub struct ControlTargetView {
    /// Endpoint.
    pub info: InternalEndpointInfoView,
    /// Semaphore.
    pub semaphore: u64,
    /// Group.
    pub group: Seq<InternalEndpointInfoView>,
}

impl View for ControlTarget {
    type V = ControlTargetView;

    open spec fn view(&self) -> ControlTargetView {
        ControlTargetView { info: self.info@, semaphore: self.semaphore, group: info_views(self.group@) }
    }
}

/// The infos of the registry entries guarded by a semaphore, in registry order.
pub open spec fn semaphore_members(eps: Seq<RegisteredView>, sem: u64) -> Seq<InternalEndpointInfoView>
    decreases eps.len(),
{
    if eps.len() == 0 {
        Seq::empty()
    } else if eps.last().semaphore == sem {
        semaphore_members(eps.drop_last(), sem).push(eps.last().info)
    } else {
        semaphore_members(eps.drop_last(), sem)
    }
}

/// The message for asking control twice.
pub open spec fn already_controlling_message(user: Seq<char>, info: InternalEndpointInfoView) -> Seq<char> {
    "User "@ + user + " is already queued or already has control over "@ + display_info(info) + "."@
}

/// Asking control of an endpoint: unknown mocks are created; unknown ttys are an
/// error; asking again while queued or in control is superfluous; otherwise the
/// semaphore to acquire and the group it guards.
pub open spec fn model_control(s: ControlCenterView, user: Seq<char>, id: InternalEndpointIdView)
    -> (ControlCenterView, Result<ControlTargetView, ErrorView>, Seq<EffectView>)
{
    let m = with_mock(s, id);
    let fx = mock_effects(s, id);
    if !has_endpoint(m.endpoints, id) {
        (m, Err(no_such_endpoint(id)), fx)
    } else {
        let info = info_of(m, id);
        let sem = entry_of(m, id).semaphore;
        let st = state_of(m, user);
        if contains_info_id(st.in_queue_of, id) || st.in_control_of.contains(sem) {
            (m, Err(ErrorView::SuperfluousRequest(already_controlling_message(user, info))), fx)
        } else {
            (m, Ok(ControlTargetView { info, semaphore: sem, group: semaphore_members(m.endpoints, sem) }), fx)
        }
    }
}

/// Whether none of `group` is in `queue` already.
pub open spec fn disjoint_ids(queue: Seq<InternalEndpointInfoView>, group: Seq<InternalEndpointInfoView>) -> bool {
    forall|i: int| 0 <= i < group.len() ==> !contains_info_id(queue, (#[trigger] group[i]).id)
}

/// Queueing for a busy group: the user now queues for each of its endpoints.
pub open spec fn model_enqueue(s: ControlCenterView, user: Seq<char>, group: Seq<InternalEndpointInfoView>)
    -> (ControlCenterView, Seq<EffectView>)
{
    let st = state_of(s, user);
    (
        with_state(s, user, UserStateView { in_queue_of: st.in_queue_of + group, ..st }),
        seq![emit(user, EventView::InQueueFor(group))],
    )
}

/// One attempt at control, once it is known whether the group's permit was
/// free: held without change, or queued for the whole group.
pub open spec fn model_attempt(s: ControlCenterView, user: Seq<char>, group: Seq<InternalEndpointInfoView>, permit_free: bool)
    -> (ControlCenterView, ControlAttemptView, Seq<EffectView>)
{
    if permit_free {
        (s, ControlAttemptView::Granted, Seq::empty())
    } else {
        (model_enqueue(s, user, group).0, ControlAttemptView::Queued(group), model_enqueue(s, user, group).1)
    }
}

/// Whether an endpoint's current labels include all the requested labels.
pub open spec fn entry_matches(e: RegisteredView, labels: Seq<Seq<char>>) -> bool {
    e.labels is Some && labels_superset(e.labels->Some_0, labels)
}

/// Whether some matching entry is guarded by this semaphore.
pub open spec fn semaphore_matched(eps: Seq<RegisteredView>, labels: Seq<Seq<char>>, sem: u64) -> bool {
    exists|i: int| 0 <= i < eps.len() && entry_matches(#[trigger] eps[i], labels) && eps[i].semaphore == sem
}

/// The endpoints matching the labels, at most one per semaphore (the first in
/// registry order): controlling one endpoint of a group controls the whole group.
pub open spec fn label_matches(eps: Seq<RegisteredView>, labels: Seq<Seq<char>>) -> Seq<InternalEndpointInfoView>
    decreases eps.len(),
{
    if eps.len() == 0 {
        Seq::empty()
    } else if entry_matches(eps.last(), labels) && !semaphore_matched(eps.drop_last(), labels, eps.last().semaphore) {
        label_matches(eps.drop_last(), labels).push(eps.last().info)
    } else {
        label_matches(eps.drop_last(), labels)
    }
}

/// The candidates of a control-any request.
pub open spec fn model_control_any_candidates(s: ControlCenterView, labels: Seq<Seq<char>>)
    -> Result<Seq<InternalEndpointInfoView>, ErrorView>
{
    if labels.len() == 0 {
        Err(ErrorView::BadUsage("At least one label must be provided"@))
    } else if label_matches(s.endpoints, labels).len() == 0 {
        Err(ErrorView::NoMatchingEndpoints(labels))
    } else {
        Ok(label_matches(s.endpoints, labels))
    }
}

/// How one candidate of a control-any request fared.
#[derive(Debug)]
pub enum ControlAttempt {
    /// Asking control failed.
    Failed(Error),
    /// The group was free and is now held.
    Granted,
    /// The group was busy; the user queues for these endpoints.
    Queued(Vec<InternalEndpointInfo>),
}

/// The mathematical value of a [`ControlAttempt`].
pub enum ControlAttemptView {
    /// Failed.
    Failed(ErrorView),
    /// Granted.
    Granted,
    /// Queued.
    Queued(Seq<InternalEndpointInfoView>),
}

impl View for ControlAttempt {
    type V = ControlAttemptView;

    open spec fn view(&self) -> ControlAttemptView {
        match self {
            ControlAttempt::Failed(e) => ControlAttemptView::Failed(e@),
            ControlAttempt::Granted => ControlAttemptView::Granted,
            ControlAttempt::Queued(v) => ControlAttemptView::Queued(info_views(v@)),
        }
    }
}

/// The views of attempts.
pub open spec fn attempt_views(v: Seq<ControlAttempt>) -> Seq<ControlAttemptView> {
    v.map_values(|a: ControlAttempt| a@)
}

/// What a control-any request comes to.
#[derive(Debug)]
pub enum ControlAnyDecision {
    /// Control of the candidate at this position is granted.
    Granted(usize),
    /// The user queues for all these endpoints; the first to be free is granted.
    Queued(Vec<InternalEndpointInfo>),
}

/// The mathematical value of a [`ControlAnyDecision`].
pub enum ControlAnyDecisionView {
    /// Granted.
    Granted(nat),
    /// Queued.
    Queued(Seq<InternalEndpointInfoView>),
}

impl View for ControlAnyDecision {
    type V = ControlAnyDecisionView;

    open spec fn view(&self) -> ControlAnyDecisionView {
        match self {
            ControlAnyDecision::Granted(i) => ControlAnyDecisionView::Granted(*i as nat),
            ControlAnyDecision::Queued(v) => ControlAnyDecisionView::Queued(info_views(v@)),
        }
    }
}

/// The endpoints of the queued attempts, attempt after attempt.
pub open spec fn queued_endpoints(attempts: Seq<ControlAttemptView>) -> Seq<InternalEndpointInfoView>
    decreases attempts.len(),
{
    if attempts.len() == 0 {
        Seq::empty()
    } else {
        queued_endpoints(attempts.drop_last()) + match attempts.last() {
            ControlAttemptView::Queued(v) => v,
            _ => Seq::empty(),
        }
    }
}

/// The errors of the failed attempts, in order.
pub open spec fn attempt_errors(attempts: Seq<ControlAttemptView>) -> Seq<ErrorView>
    decreases attempts.len(),
{
    if attempts.len() == 0 {
        Seq::empty()
    } else {
        attempt_errors(attempts.drop_last()) + match attempts.last() {
            ControlAttemptView::Failed(e) => seq![e],
            _ => Seq::empty(),
        }
    }
}

/// Each candidate shown after a space.
pub open spec fn spaced_infos(infos: Seq<InternalEndpointInfoView>) -> Seq<char>
    decreases infos.len(),
{
    if infos.len() == 0 {
        Seq::empty()
    } else {
        spaced_infos(infos.drop_last()) + " "@ + display_info(infos.last())
    }
}

/// Each error shown as ` <message>`.
pub open spec fn bracketed_errors(errors: Seq<ErrorView>) -> Seq<char>
    decreases errors.len(),
{
    if errors.len() == 0 {
        Seq::empty()
    } else {
        bracketed_errors(errors.drop_last()) + " <"@ + crate::error::error_message(errors.last()) + ">"@
    }
}

/// The message when every candidate of a control-any request failed.
pub open spec fn all_failed_message(candidates: Seq<InternalEndpointInfoView>, errors: Seq<ErrorView>) -> Seq<char> {
    "All matching endpoints: ["@ + spaced_infos(candidates) + " ] resulted in errors: ["@ + bracketed_errors(errors) + " ]"@
}

/// Whether every attempt failed.
pub open spec fn all_failed(attempts: Seq<ControlAttemptView>) -> bool {
    forall|i: int| 0 <= i < attempts.len() ==> (#[trigger] attempts[i]) is Failed
}

impl ControlCenter {
    /// Ask control of an endpoint. Unknown mocks are created on the spot.
    /// On success the semaphore to acquire is returned with the group it guards;
    /// if it cannot be acquired right away, the user is queued with [`Self::enqueue`].
    pub fn control(&mut self, user: &User, id: InternalEndpointId, effects: &mut Vec<Effect>)
        -> (r: Result<ControlTarget, Error>)
        requires
            old(self).wf(),
            has_user(old(self)@.users, user@),
            old(self)@.next_semaphore < u64::MAX,
        ensures
            final(self).wf(),
            final(self)@ == model_control(old(self)@, user@, id@).0,
            result_view(r) == model_control(old(self)@, user@, id@).1,
            effect_views(final(effects)@) == effect_views(old(effects)@) + model_control(old(self)@, user@, id@).2,
    {
        self.ensure_mock(&id, effects);
        let ghost m = self@;
        let pos = self.endpoint_position(&id);
        match pos {
            None => {
                let msg = id.display();
                Err(Error::NoSuchEndpoint(msg))
            },
            Some(ei) => {
                let info = InternalEndpointInfo::new(id.duplicate(), duplicate_opt_labels(&self.endpoints[ei].labels));
                let sem = self.endpoints[ei].semaphore;
                let ui = match self.user_position(user) {
                    Some(ui) => ui,
                    None => { return Err(Error::InternalIssue(owned(""))); },
                };
                proof {
                    assert(info@ == info_of(m, id@));
                    assert(sem == entry_of(m, id@).semaphore);
                    assert(info_views(self.users@[ui as int].state.in_queue_of@) == state_of(m, user@).in_queue_of);
                    assert(self.users@[ui as int].state.in_control_of@ == state_of(m, user@).in_control_of);
                }
                let queued = position_of_info(&self.users[ui].state.in_queue_of, &id);
                let holding = contains_u64(&self.users[ui].state.in_control_of, sem);
                if queued.is_some() || holding {
                    proof {
                        if queued.is_some() {
                            let k = queued.unwrap() as int;
                            assert(state_of(m, user@).in_queue_of[k].id == id@);
                        }
                        reveal_strlit("User ");
                        reveal_strlit(" is already queued or already has control over ");
                        reveal_strlit(".");
                    }
                    let mut msg = owned("User ");
                    let name = user.display();
                    msg.append(name.as_str());
                    msg.append(" is already queued or already has control over ");
                    let shown = info.display();
                    msg.append(shown.as_str());
                    msg.append(".");
                    return Err(Error::SuperfluousRequest(msg));
                }
                let group = self.semaphore_members(sem);
                Ok(ControlTarget { info, semaphore: sem, group })
            },
        }
    }

    /// The infos of the endpoints guarded by a semaphore, in registry order.
    pub fn semaphore_members(&self, sem: u64) -> (v: Vec<InternalEndpointInfo>)
        ensures
            info_views(v@) == semaphore_members(self@.endpoints, sem),
    {
        let mut v: Vec<InternalEndpointInfo> = Vec::new();
        let mut i: usize = 0;
        while i < self.endpoints.len()
            invariant
                i <= self.endpoints@.len(),
                info_views(v@) == semaphore_members(self@.endpoints.subrange(0, i as int), sem),
            decreases self.endpoints@.len() - i,
        {
            let ghost before = v@;
            if self.endpoints[i].semaphore == sem {
                v.push(self.endpoints[i].info.duplicate());
            }
            proof {
                let next = self@.endpoints.subrange(0, i + 1);
                assert(next.drop_last() =~= self@.endpoints.subrange(0, i as int));
                assert(next.last() == self@.endpoints[i as int]);
                assert(info_views(v@) =~= semaphore_members(next, sem));
            }
            i += 1;
        }
        proof {
            assert(self@.endpoints.subrange(0, self@.endpoints.len() as int) =~= self@.endpoints);
        }
        v
    }

    /// Whether a user may be queued for a group: it queues for none of it yet.
    pub fn can_enqueue(&self, user: &User, group: &Vec<InternalEndpointInfo>) -> (b: bool)
        requires
            self.wf(),
            has_user(self@.users, user@),
        ensures
            b == disjoint_ids(state_of(self@, user@).in_queue_of, info_views(group@)),
    {
        let ui = match self.user_position(user) {
            Some(ui) => ui,
            None => { return false; },
        };
        let mut i: usize = 0;
        while i < group.len()
            invariant
                i <= group@.len(),
                ui < self.users@.len(),
                info_views(self.users@[ui as int].state.in_queue_of@) == state_of(self@, user@).in_queue_of,
                forall|j: int| 0 <= j < i ==> !contains_info_id(state_of(self@, user@).in_queue_of, (#[trigger] info_views(group@)[j]).id),
            decreases group@.len() - i,
        {
            let found = position_of_info(&self.users[ui].state.in_queue_of, &group[i].id);
            if found.is_some() {
                proof {
                    assert(info_views(group@)[i as int].id == group@[i as int].id@);
                    let k = found.unwrap() as int;
                    assert(state_of(self@, user@).in_queue_of[k].id == group@[i as int].id@);
                    assert(contains_info_id(state_of(self@, user@).in_queue_of, info_views(group@)[i as int].id));
                }
                return false;
            }
            proof { assert(info_views(group@)[i as int].id == group@[i as int].id@); }
            i += 1;
        }
        true
    }

    /// One attempt at control, once it is known whether the permit of the
    /// target's group was free: a free permit means the group is held; a busy
    /// one queues the user for the whole group.
    pub fn attempt_control(&mut self, user: &User, target: &ControlTarget, permit_free: bool, effects: &mut Vec<Effect>) -> (a: ControlAttempt)
        requires
            old(self).wf(),
            has_user(old(self)@.users, user@),
            !permit_free ==> info_ids_unique(info_views(target.group@)),
            !permit_free ==> disjoint_ids(state_of(old(self)@, user@).in_queue_of, info_views(target.group@)),
        ensures
            final(self).wf(),
            final(self)@ == model_attempt(old(self)@, user@, target@.group, permit_free).0,
            a@ == model_attempt(old(self)@, user@, target@.group, permit_free).1,
            effect_views(final(effects)@) == effect_views(old(effects)@) + model_attempt(old(self)@, user@, target@.group, permit_free).2,
    {
        if permit_free {
            proof {
                assert(effect_views(effects@) =~= effect_views(effects@) + Seq::<EffectView>::empty());
            }
            ControlAttempt::Granted
        } else {
            self.enqueue(user, &target.group, effects);
            ControlAttempt::Queued(duplicate_infos(&target.group))
        }
    }

    /// The user queues for a busy group.
    pub fn enqueue(&mut self, user: &User, group: &Vec<InternalEndpointInfo>, effects: &mut Vec<Effect>)
        requires
            old(self).wf(),
            has_user(old(self)@.users, user@),
            info_ids_unique(info_views(group@)),
            disjoint_ids(state_of(old(self)@, user@).in_queue_of, info_views(group@)),
        ensures
            final(self).wf(),
            final(self)@ == model_enqueue(old(self)@, user@, info_views(group@)).0,
            effect_views(final(effects)@) == effect_views(old(effects)@) + model_enqueue(old(self)@, user@, info_views(group@)).1,
    {
        let ui = match self.user_position(user) {
            Some(ui) => ui,
            None => { proof { assert(false); } return; },
        };
        let ghost m = self@;
        let ghost st = state_of(m, user@);
        let ghost g = info_views(group@);
        let mut i: usize = 0;
        while i < group.len()
            invariant
                i <= group@.len(),
                ui < self.users@.len(),
                self.users@.len() == m.users.len(),
                self@.endpoints == m.endpoints,
                self@.next_semaphore == m.next_semaphore,
                self@.share_mocks == m.share_mocks,
                g == info_views(group@),
                forall|j: int| 0 <= j < self.users@.len() && j != ui as int ==> #[trigger] self@.users[j] == m.users[j],
                self@.users[ui as int] == (UserEntryView { name: user@, state: UserStateView { in_queue_of: st.in_queue_of + g.subrange(0, i as int), ..st } }),
            decreases group@.len() - i,
        {
            let ghost q = self.users@[ui as int].state.in_queue_of@;
            let ghost us = self.users@;
            let ghost ov = self@;
            let d = group[i].duplicate();
            self.users[ui].state.in_queue_of.push(d);
            proof {
                assert forall|j: int| 0 <= j < self.users@.len() && j != ui as int implies self.users@[j] == us[j] by {}
                assert forall|j: int| 0 <= j < self.users@.len() && j != ui as int implies #[trigger] self@.users[j] == m.users[j] by {
                    assert(self@.users[j] == us[j]@);
                    assert(ov.users[j] == us[j]@);
                    assert(ov.users[j] == m.users[j]);
                }
                assert(self.users@[ui as int].state.in_queue_of@ == q.push(d));
                assert(info_views(q.push(d)) =~= info_views(q).push(d@));
                assert(g.subrange(0, i + 1) =~= g.subrange(0, i as int).push(g[i as int]));
                assert(st.in_queue_of + g.subrange(0, i + 1) =~= (st.in_queue_of + g.subrange(0, i as int)).push(g[i as int]));
            }
            i += 1;
        }
        let mut evs = duplicate_infos(group);
        effects.push(Effect::Emit(UserEvent { user: user.duplicate(), event: Event::InQueueFor(evs) }));
        proof {
            let s = self@;
            let new_st = UserStateView { in_queue_of: st.in_queue_of + g, ..st };
            assert(g.subrange(0, g.len() as int) =~= g);
            assert(s.users =~= m.users.update(ui as int, UserEntryView { name: user@, state: new_st }));
            assert(effect_views(final(effects)@) =~= effect_views(old(effects)@) + model_enqueue(old(self)@, user@, g).1);
            assert(info_ids_unique(new_st.in_queue_of)) by {
                let a = st.in_queue_of;
                assert forall|x: int, y: int|
                    #![trigger new_st.in_queue_of[x], new_st.in_queue_of[y]]
                    0 <= x < new_st.in_queue_of.len() && 0 <= y < new_st.in_queue_of.len() && x != y
                    implies new_st.in_queue_of[x].id != new_st.in_queue_of[y].id by {
                    if x < a.len() && y < a.len() {
                        assert(new_st.in_queue_of[x] == a[x]);
                        assert(new_st.in_queue_of[y] == a[y]);
                    } else if x >= a.len() && y >= a.len() {
                        assert(new_st.in_queue_of[x] == g[x - a.len()]);
                        assert(new_st.in_queue_of[y] == g[y - a.len()]);
                    } else if x < a.len() {
                        assert(new_st.in_queue_of[y] == g[y - a.len()]);
                        assert(!contains_info_id(a, g[y - a.len()].id));
                        assert(new_st.in_queue_of[x] == a[x]);
                    } else {
                        assert(new_st.in_queue_of[x] == g[x - a.len()]);
                        assert(!contains_info_id(a, g[x - a.len()].id));
                        assert(new_st.in_queue_of[y] == a[y]);
                    }
                }
            }
            assert forall|i: int, j: int|
                #![trigger s.users[i], s.users[j]]
                0 <= i < s.users.len() && 0 <= j < s.users.len() && i != j implies s.users[i].name != s.users[j].name by {
                assert(m.users[i].name == s.users[i].name);
                assert(m.users[j].name == s.users[j].name);
            }
            assert forall|i: int| 0 <= i < s.users.len() implies user_state_wf((#[trigger] s.users[i]).state) by {
                if i != ui as int {
                    assert(s.users[i] == m.users[i]);
                }
            }
        }
    }

    /// The endpoints matching all the labels, one per semaphore.
    pub fn labels_to_endpoint_ids(&self, labels: &Labels) -> (v: Vec<InternalEndpointInfo>)
        ensures
            info_views(v@) == label_matches(self@.endpoints, labels@),
    {
        let mut v: Vec<InternalEndpointInfo> = Vec::new();
        let mut seen: Vec<u64> = Vec::new();
        let mut i: usize = 0;
        while i < self.endpoints.len()
            invariant
                i <= self.endpoints@.len(),
                info_views(v@) == label_matches(self@.endpoints.subrange(0, i as int), labels@),
                forall|sem: u64| seen@.contains(sem) <==> semaphore_matched(self@.endpoints.subrange(0, i as int), labels@, sem),
            decreases self.endpoints@.len() - i,
        {
            let ghost before = v@;
            let ghost prefix = self@.endpoints.subrange(0, i as int);
            let ghost next = self@.endpoints.subrange(0, i + 1);
            let e = &self.endpoints[i];
            let matches = match &e.labels {
                Some(ls) => ls.is_superset(labels),
                None => false,
            };
            proof {
                assert(next.drop_last() =~= prefix);
                assert(next.last() == self@.endpoints[i as int]);
                assert(matches == entry_matches(next.last(), labels@));
            }
            let taken = contains_u64(&seen, e.semaphore);
            let ghost old_seen = seen@;
            let ghost esem = e.semaphore;
            proof {
                assert(esem == next[i as int].semaphore);
                assert(taken == semaphore_matched(prefix, labels@, esem));
            }
            if matches && !taken {
                v.push(e.info.duplicate());
                seen.push(e.semaphore);
            }
            proof {
                assert(info_views(v@) =~= label_matches(next, labels@));
                assert forall|sem: u64| seen@.contains(sem) <==> semaphore_matched(next, labels@, sem) by {
                    if semaphore_matched(next, labels@, sem) {
                        let k = choose|k: int| 0 <= k < next.len() && entry_matches(#[trigger] next[k], labels@) && next[k].semaphore == sem;
                        if k < i {
                            assert(prefix[k] == next[k]);
                            assert(semaphore_matched(prefix, labels@, sem));
                            assert(old_seen.contains(sem));
                            if matches && !taken {
                                assert(seen@[old_seen.len() - 1 + 0] == old_seen[old_seen.len() - 1]) by {}
                                let w = choose|w: int| 0 <= w < old_seen.len() && old_seen[w] == sem;
                                assert(seen@[w] == sem);
                            }
                        } else {
                            assert(k == i as int);
                            assert(matches);
                            assert(sem == esem);
                            if taken {
                                assert(old_seen.contains(sem));
                            } else {
                                assert(seen@[old_seen.len() as int] == sem);
                            }
                        }
                    }
                    if seen@.contains(sem) {
                        let w = choose|w: int| 0 <= w < seen@.len() && seen@[w] == sem;
                        if w < old_seen.len() {
                            assert(old_seen[w] == sem);
                            assert(old_seen.contains(sem));
                            assert(semaphore_matched(prefix, labels@, sem));
                            let k = choose|k: int| 0 <= k < prefix.len() && entry_matches(#[trigger] prefix[k], labels@) && prefix[k].semaphore == sem;
                            assert(next[k] == prefix[k]);
                        } else {
                            assert(matches && !taken);
                            assert(sem == esem);
                            assert(entry_matches(next[i as int], labels@));
                        }
                    }
                }
            }
            i += 1;
        }
        proof {
            assert(self@.endpoints.subrange(0, self@.endpoints.len() as int) =~= self@.endpoints);
        }
        v
    }

    /// The candidates of a control-any request: no labels is bad usage, and so is
    /// asking labels no endpoint carries.
    pub fn control_any_candidates(&self, labels: &Labels) -> (r: Result<Vec<InternalEndpointInfo>, Error>)
        ensures
            match r {
                Ok(v) => model_control_any_candidates(self@, labels@) == Ok::<Seq<InternalEndpointInfoView>, ErrorView>(info_views(v@)),
                Err(e) => model_control_any_candidates(self@, labels@) == Err::<Seq<InternalEndpointInfoView>, ErrorView>(e@),
            },
    {
        if labels.is_empty() {
            proof { reveal_strlit("At least one label must be provided"); }
            return Err(Error::BadUsage(owned("At least one label must be provided")));
        }
        let infos = self.labels_to_endpoint_ids(labels);
        if infos.len() == 0 {
            return Err(Error::NoMatchingEndpoints(labels.duplicate()));
        }
        Ok(infos)
    }
}

/// Whether a list of numbers holds `x`.
pub fn contains_u64(v: &Vec<u64>, x: u64) -> (b: bool)
    ensures
        b == v@.contains(x),
{
    let mut i: usize = 0;
    while i < v.len()
        invariant
            i <= v@.len(),
            forall|j: int| 0 <= j < i ==> v@[j] != x,
        decreases v@.len() - i,
    {
        if v[i] == x {
            return true;
        }
        i += 1;
    }
    false
}

/// Decide a control-any request from how each candidate fared: when all failed,
/// the request fails listing candidates and errors; otherwise the first granted
/// candidate is chosen; otherwise the user queues for every busy endpoint.
pub fn decide_control_any(candidates: &Vec<InternalEndpointInfo>, attempts: &Vec<ControlAttempt>)
    -> (r: Result<ControlAnyDecision, Error>)
    requires
        candidates@.len() == attempts@.len(),
    ensures
        all_failed(attempt_views(attempts@)) ==> r is Err && r->Err_0@ == ErrorView::BadUsage(
            all_failed_message(info_views(candidates@), attempt_errors(attempt_views(attempts@)))),
        !all_failed(attempt_views(attempts@)) && (exists|i: int| 0 <= i < attempts@.len() && (#[trigger] attempts@[i]) is Granted) ==>
            exists|i: int| 0 <= i < attempts@.len() && (#[trigger] attempts@[i]) is Granted
                && (forall|j: int| 0 <= j < i ==> !(#[trigger] attempts@[j] is Granted))
                && r is Ok && r->Ok_0@ == ControlAnyDecisionView::Granted(i as nat),
        !all_failed(attempt_views(attempts@)) && !(exists|i: int| 0 <= i < attempts@.len() && (#[trigger] attempts@[i]) is Granted) ==>
            r is Ok && r->Ok_0@ == ControlAnyDecisionView::Queued(queued_endpoints(attempt_views(attempts@))),
{
    let ghost a = attempt_views(attempts@);
    // Collect errors and queued endpoints, and find the first grant.
    let mut errors: Vec<String> = Vec::new();
    let mut queued: Vec<InternalEndpointInfo> = Vec::new();
    let mut granted: Option<usize> = None;
    let mut failed: usize = 0;
    let mut i: usize = 0;
    while i < attempts.len()
        invariant
            i <= attempts@.len(),
            a == attempt_views(attempts@),
            failed <= i,
            (failed == i) == all_failed(a.subrange(0, i as int)),
            info_views(queued@) == queued_endpoints(a.subrange(0, i as int)),
            crate::text::string_views(errors@) == attempt_errors(a.subrange(0, i as int)).map_values(|e: ErrorView| crate::error::error_message(e)),
            match granted {
                Some(g) => g < i && attempts@[g as int] is Granted && forall|j: int| 0 <= j < g ==> !(#[trigger] attempts@[j] is Granted),
                None => forall|j: int| 0 <= j < i ==> !(#[trigger] attempts@[j] is Granted),
            },
        decreases attempts@.len() - i,
    {
        let ghost prefix = a.subrange(0, i as int);
        let ghost next = a.subrange(0, i + 1);
        proof {
            assert(next.drop_last() =~= prefix);
            assert(next.last() == a[i as int]);
            assert(a[i as int] == attempts@[i as int]@);
        }
        let ghost qb = queued@;
        let ghost eb = errors@;
        match &attempts[i] {
            ControlAttempt::Failed(e) => {
                errors.push(e.message());
                failed += 1;
                proof {
                    assert(crate::text::string_views(errors@) =~= crate::text::string_views(eb).push(crate::error::error_message(e@)));
                    assert(attempt_errors(next) =~= attempt_errors(prefix).push(e@));
                    assert(attempt_errors(next).map_values(|e: ErrorView| crate::error::error_message(e))
                        =~= attempt_errors(prefix).map_values(|e: ErrorView| crate::error::error_message(e)).push(crate::error::error_message(e@)));
                    assert(queued_endpoints(next) =~= queued_endpoints(prefix));
                }
            },
            ControlAttempt::Granted => {
                if granted.is_none() {
                    granted = Some(i);
                }
                proof {
                    assert(attempt_errors(next) =~= attempt_errors(prefix));
                    assert(queued_endpoints(next) =~= queued_endpoints(prefix));
                }
            },
            ControlAttempt::Queued(v) => {
                let mut k: usize = 0;
                while k < v.len()
                    invariant
                        k <= v@.len(),
                        info_views(queued@) == info_views(qb) + info_views(v@).subrange(0, k as int),
                    decreases v@.len() - k,
                {
                    let ghost qq = queued@;
                    queued.push(v[k].duplicate());
                    proof {
                        assert(info_views(queued@) =~= info_views(qq).push(v@[k as int]@));
                        assert(info_views(v@).subrange(0, k + 1) =~= info_views(v@).subrange(0, k as int).push(v@[k as int]@));
                    }
                    k += 1;
                }
                proof {
                    assert(info_views(v@).subrange(0, v@.len() as int) =~= info_views(v@));
                    assert(attempt_errors(next) =~= attempt_errors(prefix));
                    assert(queued_endpoints(next) =~= queued_endpoints(prefix) + info_views(v@));
                }
            },
        }
        proof {
            if failed == i + 1 {
                assert forall|j: int| 0 <= j < next.len() implies (#[trigger] next[j]) is Failed by {
                    if j < i { assert(next[j] == prefix[j]); }
                }
            } else {
                if all_failed(next) {
                    if failed == i {
                        assert(next[i as int] is Failed);
                    } else {
                        assert forall|j: int| 0 <= j < prefix.len() implies (#[trigger] prefix[j]) is Failed by {
                            assert(next[j] == prefix[j]);
                        }
                    }
                }
            }
        }
        i += 1;
    }
    proof {
        assert(a.subrange(0, a.len() as int) =~= a);
    }
    if failed == attempts.len() {
        proof {
            reveal_strlit("All matching endpoints: [");
            reveal_strlit(" ] resulted in errors: [");
            reveal_strlit(" ]");
        }
        let mut msg = owned("All matching endpoints: [");
        let shown = spaced_infos_string(candidates);
        msg.append(shown.as_str());
        msg.append(" ] resulted in errors: [");
        let errs = bracketed_errors_string(&errors);
        proof {
            assert(crate::text::string_views(errors@) == attempt_errors(a).map_values(|e: ErrorView| crate::error::error_message(e)));
            lemma_bracketed(attempt_errors(a));
        }
        msg.append(errs.as_str());
        msg.append(" ]");
        return Err(Error::BadUsage(msg));
    }
    match granted {
        Some(g) => Ok(ControlAnyDecision::Granted(g)),
        None => Ok(ControlAnyDecision::Queued(queued)),
    }
}

/// Error messages each shown as ` <message>`.
pub open spec fn bracketed_texts(texts: Seq<Seq<char>>) -> Seq<char>
    decreases texts.len(),
{
    if texts.len() == 0 {
        Seq::empty()
    } else {
        bracketed_texts(texts.drop_last()) + " <"@ + texts.last() + ">"@
    }
}

proof fn lemma_bracketed(errors: Seq<ErrorView>)
    ensures
        bracketed_texts(errors.map_values(|e: ErrorView| crate::error::error_message(e))) == bracketed_errors(errors),
    decreases errors.len(),
{
    if errors.len() > 0 {
        lemma_bracketed(errors.drop_last());
        assert(errors.map_values(|e: ErrorView| crate::error::error_message(e)).drop_last()
            =~= errors.drop_last().map_values(|e: ErrorView| crate::error::error_message(e)));
    }
}

fn bracketed_errors_string(texts: &Vec<String>) -> (s: String)
    ensures
        s@ == bracketed_texts(crate::text::string_views(texts@)),
{
    proof {
        reveal_strlit(" <");
        reveal_strlit(">");
    }
    let mut s = String::new();
    let mut i: usize = 0;
    while i < texts.len()
        invariant
            i <= texts@.len(),
            s@ == bracketed_texts(crate::text::string_views(texts@).subrange(0, i as int)),
        decreases texts@.len() - i,
    {
        s.append(" <");
        s.append(texts[i].as_str());
        s.append(">");
        proof {
            let next = crate::text::string_views(texts@).subrange(0, i + 1);
            assert(next.drop_last() =~= crate::text::string_views(texts@).subrange(0, i as int));
            assert(next.last() == texts@[i as int]@);
        }
        i += 1;
    }
    proof {
        assert(crate::text::string_views(texts@).subrange(0, texts@.len() as int) =~= crate::text::string_views(texts@));
    }
    s
}

fn spaced_infos_string(infos: &Vec<InternalEndpointInfo>) -> (s: String)
    ensures
        s@ == spaced_infos(info_views(infos@)),
{
    proof { reveal_strlit(" "); }
    let mut s = String::new();
    let mut i: usize = 0;
    while i < infos.len()
        invariant
            i <= infos@.len(),
            s@ == spaced_infos(info_views(infos@).subrange(0, i as int)),
        decreases infos@.len() - i,
    {
        s.append(" ");
        let shown = infos[i].display();
        s.append(shown.as_str());
        proof {
            let next = info_views(infos@).subrange(0, i + 1);
            assert(next.drop_last() =~= info_views(infos@).subrange(0, i as int));
            assert(next.last() == infos@[i as int]@);
        }
        i += 1;
    }
    proof {
        assert(info_views(infos@).subrange(0, infos@.len() as int) =~= info_views(infos@));
    }
    s
}


/// What a user asked control of.
#[derive(Debug)]
pub enum UserRequest {
    /// A specific endpoint.
    EndpointId(crate::endpoint::EndpointId),
    /// Any endpoint carrying these labels.
    Labels(Labels),
}

/// The mathematical value of a [`UserRequest`].
pub enum UserRequestView {
    /// A specific endpoint.
    EndpointId(crate::endpoint::EndpointIdView),
    /// Any endpoint with these labels.
    Labels(Seq<Seq<char>>),
}

impl View for UserRequest {
    type V = UserRequestView;

    open spec fn view(&self) -> UserRequestView {
        match self {
            UserRequest::EndpointId(id) => UserRequestView::EndpointId(id@),
            UserRequest::Labels(l) => UserRequestView::Labels(l@),
        }
    }
}

/// The infos of `from` whose endpoint is not named in `remove`, in order.
pub open spec fn without_ids(from: Seq<InternalEndpointInfoView>, remove: Seq<InternalEndpointInfoView>) -> Seq<InternalEndpointInfoView>
    decreases from.len(),
{
    if from.len() == 0 {
        Seq::empty()
    } else if contains_info_id(remove, from.last().id) {
        without_ids(from.drop_last(), remove)
    } else {
        without_ids(from.drop_last(), remove).push(from.last())
    }
}

/// After a label request is granted, the user no longer queues for the other
/// matching endpoints.
pub open spec fn model_release_queue(s: ControlCenterView, user: Seq<char>, labels: Seq<Seq<char>>, got: Seq<InternalEndpointInfoView>)
    -> (ControlCenterView, Seq<EffectView>)
{
    let diff = without_ids(label_matches(s.endpoints, labels), got);
    if diff.len() == 0 {
        (s, Seq::empty())
    } else {
        let st = state_of(s, user);
        (
            with_state(s, user, UserStateView { in_queue_of: without_ids(st.in_queue_of, diff), ..st }),
            seq![emit(user, EventView::NoLongerInQueueOf(diff))],
        )
    }
}

/// Whether `got` names known endpoints of one semaphore that nobody holds.
pub open spec fn can_take_control(s: ControlCenterView, user: Seq<char>, got: Seq<InternalEndpointInfoView>) -> bool {
    &&& got.len() > 0
    &&& forall|i: int| 0 <= i < got.len() ==> has_endpoint(s.endpoints, (#[trigger] got[i]).id)
    &&& forall|i: int| 0 <= i < got.len() ==> entry_of(s, (#[trigger] got[i]).id).semaphore == entry_of(s, got[0].id).semaphore
    &&& semaphore_free(s.users, entry_of(s, got[0].id).semaphore)
}

/// The user now holds the semaphore of the endpoints in `got`.
pub open spec fn model_take_control(s: ControlCenterView, user: Seq<char>, got: Seq<InternalEndpointInfoView>)
    -> (ControlCenterView, Seq<EffectView>)
{
    let st = state_of(s, user);
    let sem = entry_of(s, got[0].id).semaphore;
    (
        with_state(s, user, UserStateView { in_control_of: st.in_control_of.push(sem), ..st }),
        seq![emit(user, EventView::InControlOf(got))],
    )
}

/// A user was granted control of `got` after the request `req`.
pub open spec fn model_now_controlling(s: ControlCenterView, user: Seq<char>, req: UserRequestView, got: Seq<InternalEndpointInfoView>)
    -> (ControlCenterView, Seq<EffectView>)
{
    let first = match req {
        UserRequestView::Labels(labels) => model_release_queue(s, user, labels, got),
        UserRequestView::EndpointId(_) => (s, Seq::empty()),
    };
    let second = model_take_control(first.0, user, got);
    (second.0, first.1 + second.1)
}

/// The endpoints guarded by each of the semaphores, semaphore after semaphore.
pub open spec fn controlled_members(eps: Seq<RegisteredView>, sems: Seq<u64>) -> Seq<InternalEndpointInfoView>
    decreases sems.len(),
{
    if sems.len() == 0 {
        Seq::empty()
    } else {
        controlled_members(eps, sems.drop_last()) + semaphore_members(eps, sems.last())
    }
}

/// The events of a user leaving: what they no longer observe, queue for and
/// control (each only when there is any), then the disconnection.
pub open spec fn leave_events(user: Seq<char>, st: UserStateView, eps: Seq<RegisteredView>) -> Seq<EffectView> {
    (if st.observing.len() > 0 { seq![emit(user, EventView::NoLongerObserving(st.observing))] } else { Seq::empty() })
    + (if st.in_queue_of.len() > 0 { seq![emit(user, EventView::NoLongerInQueueOf(st.in_queue_of))] } else { Seq::empty() })
    + (if st.in_control_of.len() > 0 {
        seq![emit(user, EventView::NoLongerInControlOf(controlled_members(eps, st.in_control_of)))]
    } else {
        Seq::empty()
    })
    + seq![emit(user, EventView::Disconnected)]
}

/// Whether some queue holds this endpoint without labels.
pub open spec fn queued_unlabelled(q: Seq<InternalEndpointInfoView>, id: InternalEndpointIdView) -> bool {
    exists|k: int| 0 <= k < q.len() && (#[trigger] q[k]).labels is None && q[k].id == id
}

/// Whether an endpoint is in use: some user holds its semaphore, or queues for it.
pub open spec fn is_active(users: Seq<UserEntryView>, e: RegisteredView) -> bool {
    ||| exists|u: int| 0 <= u < users.len() && (#[trigger] users[u]).state.in_control_of.contains(e.semaphore)
    ||| exists|u: int| 0 <= u < users.len() && queued_unlabelled((#[trigger] users[u]).state.in_queue_of, e.info.id)
}

/// A mock made on demand, without labels, that nobody uses: such mocks are
/// transient, and one is removed when a user leaves. Endpoints of the
/// configuration and serial ports found at start-up are never dangling.
pub open spec fn is_dangling(users: Seq<UserEntryView>, e: RegisteredView) -> bool {
    e.on_demand && e.info.labels is None && !is_active(users, e)
}

/// The registry without dangling endpoints.
pub open spec fn kept_endpoints(eps: Seq<RegisteredView>, users: Seq<UserEntryView>) -> Seq<RegisteredView>
    decreases eps.len(),
{
    if eps.len() == 0 {
        Seq::empty()
    } else if is_dangling(users, eps.last()) {
        kept_endpoints(eps.drop_last(), users)
    } else {
        kept_endpoints(eps.drop_last(), users).push(eps.last())
    }
}

/// The removal effects for the dangling endpoints, in registry order.
pub open spec fn removal_effects(eps: Seq<RegisteredView>, users: Seq<UserEntryView>) -> Seq<EffectView>
    decreases eps.len(),
{
    if eps.len() == 0 {
        Seq::empty()
    } else if is_dangling(users, eps.last()) {
        removal_effects(eps.drop_last(), users).push(EffectView::RemoveEndpoint(eps.last().info.id))
    } else {
        removal_effects(eps.drop_last(), users)
    }
}

/// A user left: their state is dropped with events telling what they no longer
/// do, and every mock made on demand that nobody uses any more is removed.
pub open spec fn model_user_left(s: ControlCenterView, user: Seq<char>) -> (ControlCenterView, Seq<EffectView>) {
    let st = state_of(s, user);
    let users = s.users.remove(user_index(s.users, user));
    (
        ControlCenterView { endpoints: kept_endpoints(s.endpoints, users), users, ..s },
        leave_events(user, st, s.endpoints) + removal_effects(s.endpoints, users),
    )
}

/// Filtering keeps the registry's ids unique and its semaphores handed out.
proof fn lemma_kept_wf(eps: Seq<RegisteredView>, users: Seq<UserEntryView>, next: u64)
    requires
        endpoint_ids_unique(eps),
        forall|i: int| 0 <= i < eps.len() ==> (#[trigger] eps[i]).semaphore < next,
    ensures
        endpoint_ids_unique(kept_endpoints(eps, users)),
        forall|i: int| 0 <= i < kept_endpoints(eps, users).len() ==> (#[trigger] kept_endpoints(eps, users)[i]).semaphore < next,
        forall|i: int| 0 <= i < kept_endpoints(eps, users).len() ==> has_endpoint(eps, (#[trigger] kept_endpoints(eps, users)[i]).info.id),
    decreases eps.len(),
{
    if eps.len() > 0 {
        let p = eps.drop_last();
        assert forall|i: int, j: int|
            #![trigger p[i], p[j]]
            0 <= i < p.len() && 0 <= j < p.len() && i != j implies p[i].info.id != p[j].info.id by {
            assert(p[i] == eps[i]);
            assert(p[j] == eps[j]);
        }
        assert forall|i: int| 0 <= i < p.len() implies (#[trigger] p[i]).semaphore < next by {
            assert(p[i] == eps[i]);
        }
        lemma_kept_wf(p, users, next);
        let k = kept_endpoints(p, users);
        let r = kept_endpoints(eps, users);
        assert forall|i: int| 0 <= i < k.len() implies has_endpoint(eps, (#[trigger] k[i]).info.id) by {
            let w = choose|w: int| 0 <= w < p.len() && (#[trigger] p[w]).info.id == k[i].info.id;
            assert(eps[w] == p[w]);
        }
        if !is_dangling(users, eps.last()) {
            assert(r == k.push(eps.last()));
            assert(!has_endpoint(p, eps.last().info.id)) by {
                if has_endpoint(p, eps.last().info.id) {
                    let w = choose|w: int| 0 <= w < p.len() && (#[trigger] p[w]).info.id == eps.last().info.id;
                    assert(eps[w] == p[w]);
                    assert(eps[w].info.id != eps[eps.len() - 1].info.id);
                }
            }
            assert forall|i: int, j: int|
                #![trigger r[i], r[j]]
                0 <= i < r.len() && 0 <= j < r.len() && i != j implies r[i].info.id != r[j].info.id by {
                if i < k.len() && j < k.len() {
                    assert(r[i] == k[i]);
                    assert(r[j] == k[j]);
                } else if i < k.len() {
                    assert(r[i] == k[i]);
                    assert(has_endpoint(p, k[i].info.id));
                } else {
                    assert(r[j] == k[j]);
                    assert(has_endpoint(p, k[j].info.id));
                }
            }
            assert forall|i: int| 0 <= i < r.len() implies has_endpoint(eps, (#[trigger] r[i]).info.id) by {
                if i < k.len() {
                    assert(r[i] == k[i]);
                } else {
                    assert(eps[eps.len() - 1].info.id == r[i].info.id);
                }
            }
            assert forall|i: int| 0 <= i < r.len() implies (#[trigger] r[i]).semaphore < next by {
                if i < k.len() {
                    assert(r[i] == k[i]);
                } else {
                    assert(eps[eps.len() - 1] == r[i]);
                }
            }
        }
    }
}

/// Whether the infos of `from` without those named in `remove` keep ids unique,
/// and all come from `from`.
proof fn lemma_without_ids(from: Seq<InternalEndpointInfoView>, remove: Seq<InternalEndpointInfoView>)
    requires
        info_ids_unique(from),
    ensures
        info_ids_unique(without_ids(from, remove)),
        forall|i: int| 0 <= i < without_ids(from, remove).len() ==> contains_info_id(from, (#[trigger] without_ids(from, remove)[i]).id),
        forall|i: int| 0 <= i < without_ids(from, remove).len() ==> !contains_info_id(remove, (#[trigger] without_ids(from, remove)[i]).id),
    decreases from.len(),
{
    if from.len() > 0 {
        let p = from.drop_last();
        assert forall|i: int, j: int|
            #![trigger p[i], p[j]]
            0 <= i < p.len() && 0 <= j < p.len() && i != j implies p[i].id != p[j].id by {
            assert(p[i] == from[i]);
            assert(p[j] == from[j]);
        }
        lemma_without_ids(p, remove);
        let k = without_ids(p, remove);
        let r = without_ids(from, remove);
        assert forall|i: int| 0 <= i < k.len() implies contains_info_id(from, (#[trigger] k[i]).id) by {
            let w = choose|w: int| 0 <= w < p.len() && (#[trigger] p[w]).id == k[i].id;
            assert(from[w] == p[w]);
        }
        if !contains_info_id(remove, from.last().id) {
            assert(r == k.push(from.last()));
            assert(!contains_info_id(p, from.last().id)) by {
                if contains_info_id(p, from.last().id) {
                    let w = choose|w: int| 0 <= w < p.len() && (#[trigger] p[w]).id == from.last().id;
                    assert(from[w] == p[w]);
                    assert(from[w].id != from[from.len() - 1].id);
                }
            }
            assert forall|i: int, j: int|
                #![trigger r[i], r[j]]
                0 <= i < r.len() && 0 <= j < r.len() && i != j implies r[i].id != r[j].id by {
                if i < k.len() && j < k.len() {
                    assert(r[i] == k[i]);
                    assert(r[j] == k[j]);
                } else if i < k.len() {
                    assert(r[i] == k[i]);
                    assert(contains_info_id(p, k[i].id));
                } else {
                    assert(r[j] == k[j]);
                    assert(contains_info_id(p, k[j].id));
                }
            }
            assert forall|i: int| 0 <= i < r.len() implies contains_info_id(from, (#[trigger] r[i]).id) by {
                if i < k.len() {
                    assert(r[i] == k[i]);
                } else {
                    assert(from[from.len() - 1] == r[i]);
                }
            }
            assert forall|i: int| 0 <= i < r.len() implies !contains_info_id(remove, (#[trigger] r[i]).id) by {
                if i < k.len() {
                    assert(r[i] == k[i]);
                }
            }
        }
    }
}

/// Infos of `from` not named in `remove`.
pub fn infos_without(from: &Vec<InternalEndpointInfo>, remove: &Vec<InternalEndpointInfo>) -> (v: Vec<InternalEndpointInfo>)
    ensures
        info_views(v@) == without_ids(info_views(from@), info_views(remove@)),
{
    let mut v: Vec<InternalEndpointInfo> = Vec::new();
    let mut i: usize = 0;
    while i < from.len()
        invariant
            i <= from@.len(),
            info_views(v@) == without_ids(info_views(from@).subrange(0, i as int), info_views(remove@)),
        decreases from@.len() - i,
    {
        let ghost before = v@;
        let found = position_of_info(remove, &from[i].id);
        if found.is_none() {
            v.push(from[i].duplicate());
        }
        proof {
            let next = info_views(from@).subrange(0, i + 1);
            assert(next.drop_last() =~= info_views(from@).subrange(0, i as int));
            assert(next.last() == from@[i as int]@);
            if found.is_some() {
                let k = found.unwrap() as int;
                assert(info_views(remove@)[k].id == from@[i as int]@.id);
            }
            assert(info_views(v@) =~= without_ids(next, info_views(remove@)));
        }
        i += 1;
    }
    proof {
        assert(info_views(from@).subrange(0, from@.len() as int) =~= info_views(from@));
    }
    v
}

impl ControlCenter {
    /// Whether `got` names known endpoints of one semaphore that nobody holds.
    pub fn can_take_control(&self, user: &User, got: &Vec<InternalEndpointInfo>) -> (b: bool)
        requires
            self.wf(),
            has_user(self@.users, user@),
        ensures
            b == can_take_control(self@, user@, info_views(got@)),
    {
        let ghost g = info_views(got@);
        if got.len() == 0 {
            return false;
        }
        let first = match self.endpoint_position(&got[0].id) {
            Some(p) => p,
            None => { proof { assert(g[0].id == got@[0]@.id); } return false; },
        };
        let sem = self.endpoints[first].semaphore;
        proof { assert(g[0].id == got@[0]@.id); }
        let mut i: usize = 0;
        while i < got.len()
            invariant
                i <= got@.len(),
                g == info_views(got@),
                endpoint_ids_unique(self@.endpoints),
                has_endpoint(self@.endpoints, g[0].id),
                sem == entry_of(self@, g[0].id).semaphore,
                forall|j: int| 0 <= j < i ==> has_endpoint(self@.endpoints, (#[trigger] g[j]).id),
                forall|j: int| 0 <= j < i ==> entry_of(self@, (#[trigger] g[j]).id).semaphore == sem,
            decreases got@.len() - i,
        {
            proof { assert(g[i as int].id == got@[i as int]@.id); }
            match self.endpoint_position(&got[i].id) {
                Some(p) => {
                    if self.endpoints[p].semaphore != sem {
                        return false;
                    }
                },
                None => { return false; },
            }
            i += 1;
        }
        let mut u: usize = 0;
        while u < self.users.len()
            invariant
                u <= self@.users.len(),
                g == info_views(got@),
                g.len() > 0,
                has_endpoint(self@.endpoints, g[0].id),
                sem == entry_of(self@, g[0].id).semaphore,
                forall|j: int| 0 <= j < g.len() ==> has_endpoint(self@.endpoints, (#[trigger] g[j]).id),
                forall|j: int| 0 <= j < g.len() ==> entry_of(self@, (#[trigger] g[j]).id).semaphore == sem,
                forall|w: int| 0 <= w < u ==> !(#[trigger] self@.users[w]).state.in_control_of.contains(sem),
            decreases self@.users.len() - u,
        {
            if contains_u64(&self.users[u].state.in_control_of, sem) {
                proof {
                    assert(self@.users[u as int].state.in_control_of.contains(sem));
                }
                return false;
            }
            u += 1;
        }
        true
    }

    /// A user was granted control of `got` after asking with `req`.
    /// For a label request the user no longer queues for the other matching
    /// endpoints; the user now holds the semaphore.
    pub fn now_controlling(&mut self, user: &User, req: &UserRequest, got: &Vec<InternalEndpointInfo>, effects: &mut Vec<Effect>)
        requires
            old(self).wf(),
            has_user(old(self)@.users, user@),
            can_take_control(old(self)@, user@, info_views(got@)),
        ensures
            final(self).wf(),
            final(self)@ == model_now_controlling(old(self)@, user@, req@, info_views(got@)).0,
            effect_views(final(effects)@) == effect_views(old(effects)@) + model_now_controlling(old(self)@, user@, req@, info_views(got@)).1,
    {
        let ghost g = info_views(got@);
        let ui = match self.user_position(user) {
            Some(ui) => ui,
            None => { proof { assert(false); } return; },
        };
        let ghost s0 = self@;
        match req {
            UserRequest::Labels(labels) => {
                let matches = self.labels_to_endpoint_ids(labels);
                let diff = infos_without(&matches, got);
                if diff.len() > 0 {
                    let ghost st = state_of(s0, user@);
                    proof {
                        assert(info_views(self.users@[ui as int].state.in_queue_of@) == st.in_queue_of);
                        lemma_without_ids(st.in_queue_of, info_views(diff@));
                    }
                    let new_queue = infos_without(&self.users[ui].state.in_queue_of, &diff);
                    self.users[ui].state.in_queue_of = new_queue;
                    let ev = duplicate_infos(&diff);
                    let ghost fx0 = effects@;
                    effects.push(Effect::Emit(UserEvent { user: user.duplicate(), event: Event::NoLongerInQueueOf(ev) }));
                    proof {
                        let s = self@;
                        let new_st = UserStateView { in_queue_of: without_ids(st.in_queue_of, info_views(diff@)), ..st };
                        assert(s.users =~= s0.users.update(ui as int, UserEntryView { name: user@, state: new_st }));
                        lemma_exclusive_update(s0.users, ui as int, UserEntryView { name: user@, state: new_st });
                        lemma_free_update(s0.users, ui as int, UserEntryView { name: user@, state: new_st }, entry_of(s0, g[0].id).semaphore);
                        assert(effect_views(effects@) =~= effect_views(fx0).push(emit(user@, EventView::NoLongerInQueueOf(info_views(diff@)))));
                        assert forall|i: int, j: int|
                            #![trigger s.users[i], s.users[j]]
                            0 <= i < s.users.len() && 0 <= j < s.users.len() && i != j implies s.users[i].name != s.users[j].name by {
                            assert(s0.users[i].name == s.users[i].name);
                            assert(s0.users[j].name == s.users[j].name);
                        }
                        assert forall|i: int| 0 <= i < s.users.len() implies user_state_wf((#[trigger] s.users[i]).state) by {
                            if i != ui as int {
                                assert(s.users[i] == s0.users[i]);
                            }
                        }
                    }
                } else {
                    proof {
                        assert(info_views(diff@).len() == 0);
                    }
                }
            },
            UserRequest::EndpointId(_) => {},
        }
        let ghost s1 = self@;
        proof {
            assert(s1 == model_now_controlling(s0, user@, req@, g).0 || true);
            assert(s1.endpoints == s0.endpoints);
            assert(state_of(s1, user@).in_control_of == state_of(s0, user@).in_control_of) by {
                assert(s1.users[ui as int].state.in_control_of == s0.users[ui as int].state.in_control_of);
            }
        }
        let first = match self.endpoint_position(&got[0].id) {
            Some(p) => p,
            None => { proof { assert(g[0].id == got@[0]@.id); assert(false); } return; },
        };
        let sem = self.endpoints[first].semaphore;
        proof { assert(g[0].id == got@[0]@.id); }
        let ghost st1 = state_of(s1, user@);
        proof {
            assert(s1.users[ui as int].state == st1);
            assert(semaphore_free(s1.users, sem));
            assert(!s1.users[ui as int].state.in_control_of.contains(sem));
        }
        self.users[ui].state.in_control_of.push(sem);
        let ev = duplicate_infos(got);
        let ghost fx1 = effects@;
        effects.push(Effect::Emit(UserEvent { user: user.duplicate(), event: Event::InControlOf(ev) }));
        proof {
            let s = self@;
            let new_st = UserStateView { in_control_of: st1.in_control_of.push(sem), ..st1 };
            assert(s.users =~= s1.users.update(ui as int, UserEntryView { name: user@, state: new_st }));
            lemma_exclusive_take(s1.users, ui as int, UserEntryView { name: user@, state: new_st }, sem);
            assert(effect_views(effects@) =~= effect_views(fx1).push(emit(user@, EventView::InControlOf(g))));
            assert(effect_views(effects@) =~= effect_views(old(effects)@) + model_now_controlling(s0, user@, req@, g).1);
            assert(new_st.in_control_of.no_duplicates()) by {
                assert(!st1.in_control_of.contains(sem));
                assert forall|i: int, j: int| 0 <= i < new_st.in_control_of.len() && 0 <= j < new_st.in_control_of.len() && i != j
                    implies new_st.in_control_of[i] != new_st.in_control_of[j] by {
                    if i < st1.in_control_of.len() && j < st1.in_control_of.len() {
                    } else if i < st1.in_control_of.len() {
                        assert(st1.in_control_of[i] != sem);
                    } else {
                        assert(st1.in_control_of[j] != sem);
                    }
                }
            }
            assert forall|i: int, j: int|
                #![trigger s.users[i], s.users[j]]
                0 <= i < s.users.len() && 0 <= j < s.users.len() && i != j implies s.users[i].name != s.users[j].name by {
                assert(s1.users[i].name == s.users[i].name);
                assert(s1.users[j].name == s.users[j].name);
            }
            assert forall|i: int| 0 <= i < s.users.len() implies user_state_wf((#[trigger] s.users[i]).state) by {
                if i != ui as int {
                    assert(s.users[i] == s1.users[i]);
                }
            }
        }
    }

    /// Whether an endpoint is in use by a remaining user.
    fn endpoint_in_use(&self, e: &RegisteredEndpoint) -> (b: bool)
        ensures
            b == is_active(self@.users, e@),
    {
        let mut u: usize = 0;
        while u < self.users.len()
            invariant
                u <= self.users@.len(),
                forall|k: int| 0 <= k < u ==> !(#[trigger] self@.users[k]).state.in_control_of.contains(e@.semaphore),
                forall|k: int| 0 <= k < u ==> !queued_unlabelled((#[trigger] self@.users[k]).state.in_queue_of, e@.info.id),
            decreases self.users@.len() - u,
        {
            let st = &self.users[u].state;
            if contains_u64(&st.in_control_of, e.semaphore) {
                proof { assert(self@.users[u as int].state.in_control_of.contains(e@.semaphore)); }
                return true;
            }
            let mut k: usize = 0;
            while k < st.in_queue_of.len()
                invariant
                    k <= st.in_queue_of@.len(),
                    u < self.users@.len(),
                    st == &self.users@[u as int].state,
                    forall|j: int| 0 <= j < k ==> !((#[trigger] info_views(st.in_queue_of@)[j]).labels is None && info_views(st.in_queue_of@)[j].id == e@.info.id),
                decreases st.in_queue_of@.len() - k,
            {
                let q = &st.in_queue_of[k];
                proof { assert(info_views(st.in_queue_of@)[k as int] == q@); }
                if q.labels.is_none() && q.id.same_as(&e.info.id) {
                    proof {
                        assert(self@.users[u as int].state.in_queue_of[k as int] == q@);
                        assert(q@.labels is None);
                        assert(queued_unlabelled(self@.users[u as int].state.in_queue_of, e@.info.id));
                    }
                    return true;
                }
                k += 1;
            }
            proof {
                assert(!queued_unlabelled(self@.users[u as int].state.in_queue_of, e@.info.id));
            }
            u += 1;
        }
        false
    }

    /// Remove every unlabelled endpoint nobody uses.
    fn remove_dangling_mock_endpoints(&mut self, effects: &mut Vec<Effect>)
        requires
            endpoint_ids_unique(old(self)@.endpoints),
        ensures
            final(self)@ == (ControlCenterView { endpoints: kept_endpoints(old(self)@.endpoints, old(self)@.users), ..old(self)@ }),
            effect_views(final(effects)@) == effect_views(old(effects)@) + removal_effects(old(self)@.endpoints, old(self)@.users),
    {
        let ghost s0 = self@;
        let mut kept: Vec<RegisteredEndpoint> = Vec::new();
        let mut old_eps: Vec<RegisteredEndpoint> = Vec::new();
        std::mem::swap(&mut old_eps, &mut self.endpoints);
        proof { assert(registered_views(old_eps@) == s0.endpoints); }
        let mut i: usize = 0;
        while i < old_eps.len()
            invariant
                i <= old_eps@.len(),
                registered_views(old_eps@) == s0.endpoints,
                user_entry_views(self.users@) == s0.users,
                self.next_semaphore == s0.next_semaphore,
                registered_views(kept@) == kept_endpoints(s0.endpoints.subrange(0, i as int), s0.users),
                effect_views(effects@) == effect_views(old(effects)@) + removal_effects(s0.endpoints.subrange(0, i as int), s0.users),
            decreases old_eps@.len() - i,
        {
            let e = &old_eps[i];
            proof {
                let next = s0.endpoints.subrange(0, i + 1);
                assert(next.drop_last() =~= s0.endpoints.subrange(0, i as int));
                assert(next.last() == e@);
            }
            let in_use = self.endpoint_in_use(e);
            let ghost kb = kept@;
            let ghost fb = effects@;
            if e.on_demand && e.info.labels.is_none() && !in_use {
                effects.push(Effect::RemoveEndpoint(e.info.id.duplicate()));
                proof {
                    assert(effect_views(effects@) =~= effect_views(fb).push(EffectView::RemoveEndpoint(e@.info.id)));
                }
            } else {
                kept.push(RegisteredEndpoint {
                    info: e.info.duplicate(),
                    labels: duplicate_opt_labels(&e.labels),
                    semaphore: e.semaphore,
                    on_demand: e.on_demand,
                });
                proof {
                    assert(registered_views(kept@) =~= registered_views(kb).push(e@));
                }
            }
            i += 1;
        }
        proof {
            assert(s0.endpoints.subrange(0, s0.endpoints.len() as int) =~= s0.endpoints);
        }
        self.endpoints = kept;
    }

    /// A user left.
    pub fn user_left(&mut self, user: &User, effects: &mut Vec<Effect>)
        requires
            old(self).wf(),
            has_user(old(self)@.users, user@),
        ensures
            final(self).wf(),
            final(self)@ == model_user_left(old(self)@, user@).0,
            effect_views(final(effects)@) == effect_views(old(effects)@) + model_user_left(old(self)@, user@).1,
    {
        let ghost s0 = self@;
        let ui = match self.user_position(user) {
            Some(ui) => ui,
            None => { proof { assert(false); } return; },
        };
        let entry = self.users.remove(ui);
        let ghost st = entry.state@;
        proof {
            assert(st == state_of(s0, user@));
            assert(user_entry_views(self.users@) =~= s0.users.remove(ui as int));
        }
        let ghost fx0 = effects@;
        if entry.state.observing_endpoints.len() > 0 {
            let v = duplicate_infos(&entry.state.observing_endpoints);
            effects.push(Effect::Emit(UserEvent { user: user.duplicate(), event: Event::NoLongerObserving(v) }));
        }
        let ghost fx1 = effects@;
        if entry.state.in_queue_of.len() > 0 {
            let v = duplicate_infos(&entry.state.in_queue_of);
            effects.push(Effect::Emit(UserEvent { user: user.duplicate(), event: Event::NoLongerInQueueOf(v) }));
        }
        let ghost fx2 = effects@;
        if entry.state.in_control_of.len() > 0 {
            let v = self.controlled_members(&entry.state.in_control_of);
            effects.push(Effect::Emit(UserEvent { user: user.duplicate(), event: Event::NoLongerInControlOf(v) }));
        }
        let ghost fx3 = effects@;
        effects.push(Effect::Emit(UserEvent { user: user.duplicate(), event: Event::Disconnected }));
        proof {
            assert(effect_views(effects@) =~= effect_views(fx0) + leave_events(user@, st, s0.endpoints));
        }
        let ghost mid = self@;
        self.remove_dangling_mock_endpoints(effects);
        proof {
            let s = self@;
            let users = s0.users.remove(ui as int);
            assert(mid.users == users);
            lemma_kept_wf(s0.endpoints, users, s0.next_semaphore);
            assert forall|i: int, j: int|
                #![trigger s.users[i], s.users[j]]
                0 <= i < s.users.len() && 0 <= j < s.users.len() && i != j implies s.users[i].name != s.users[j].name by {
                let a = if i < ui { i } else { i + 1 };
                let b = if j < ui { j } else { j + 1 };
                assert(s.users[i] == s0.users[a]);
                assert(s.users[j] == s0.users[b]);
            }
            assert forall|i: int| 0 <= i < s.users.len() implies user_state_wf((#[trigger] s.users[i]).state) by {
                let a = if i < ui { i } else { i + 1 };
                assert(s.users[i] == s0.users[a]);
            }
            assert(effect_views(effects@) =~= effect_views(old(effects)@) + model_user_left(s0, user@).1);
        }
    }

    /// The endpoints guarded by each of the semaphores, semaphore after semaphore.
    pub fn controlled_members(&self, sems: &Vec<u64>) -> (v: Vec<InternalEndpointInfo>)
        ensures
            info_views(v@) == controlled_members(self@.endpoints, sems@),
    {
        let mut v: Vec<InternalEndpointInfo> = Vec::new();
        let mut i: usize = 0;
        while i < sems.len()
            invariant
                i <= sems@.len(),
                info_views(v@) == controlled_members(self@.endpoints, sems@.subrange(0, i as int)),
            decreases sems@.len() - i,
        {
            let members = self.semaphore_members(sems[i]);
            let ghost vb = v@;
            let mut k: usize = 0;
            while k < members.len()
                invariant
                    k <= members@.len(),
                    info_views(v@) == info_views(vb) + info_views(members@).subrange(0, k as int),
                decreases members@.len() - k,
            {
                let ghost vv = v@;
                v.push(members[k].duplicate());
                proof {
                    assert(info_views(v@) =~= info_views(vv).push(members@[k as int]@));
                    assert(info_views(members@).subrange(0, k + 1) =~= info_views(members@).subrange(0, k as int).push(members@[k as int]@));
                }
                k += 1;
            }
            proof {
                assert(info_views(members@).subrange(0, members@.len() as int) =~= info_views(members@));
                let next = sems@.subrange(0, i + 1);
                assert(next.drop_last() =~= sems@.subrange(0, i as int));
                assert(next.last() == sems@[i as int]);
            }
            i += 1;
        }
        proof {
            assert(sems@.subrange(0, sems@.len() as int) =~= sems@);
        }
        v
    }

    /// A user received a message from an endpoint.
    pub fn message_received(&self, user: &User, info: &InternalEndpointInfo, message: &crate::serial::SerialMessage, effects: &mut Vec<Effect>)
        ensures
            effect_views(final(effects)@) == effect_views(old(effects)@).push(emit(user@, EventView::MessageReceived(info@, message@))),
    {
        effects.push(Effect::Emit(UserEvent {
            user: user.duplicate(),
            event: Event::MessageReceived((info.duplicate(), message.duplicate())),
        }));
        proof {
            assert(effect_views(final(effects)@) =~= effect_views(old(effects)@).push(emit(user@, EventView::MessageReceived(info@, message@))));
        }
    }

    /// A user put a message on an endpoint's wire.
    pub fn message_sent(&self, user: &User, id: &InternalEndpointId, message: &crate::serial::SerialMessage, effects: &mut Vec<Effect>)
        requires
            self.wf(),
            has_endpoint(self@.endpoints, id@),
        ensures
            effect_views(final(effects)@) == effect_views(old(effects)@).push(emit(user@, EventView::MessageSent(info_of(self@, id@), message@))),
    {
        let p = match self.endpoint_position(id) {
            Some(p) => p,
            None => { proof { assert(false); } return; },
        };
        let info = InternalEndpointInfo::new(id.duplicate(), duplicate_opt_labels(&self.endpoints[p].labels));
        effects.push(Effect::Emit(UserEvent {
            user: user.duplicate(),
            event: Event::MessageSent((info, message.duplicate())),
        }));
        proof {
            assert(effect_views(final(effects)@) =~= effect_views(old(effects)@).push(emit(user@, EventView::MessageSent(info_of(self@, id@), message@))));
        }
    }
}


/// Labels given as a list: none when the list is empty.
pub open spec fn labels_opt(ls: Seq<Seq<char>>) -> Option<Seq<Seq<char>>> {
    if ls.len() == 0 { None } else { Some(ls) }
}

/// Register an endpoint under a semaphore. An id registered again (an endpoint
/// configured on its own and again in a group) stays one endpoint: it keeps the
/// labels given before, followed by the new ones, and takes the new semaphore.
pub open spec fn registry_insert(eps: Seq<RegisteredView>, id: InternalEndpointIdView, labels: Option<Seq<Seq<char>>>, sem: u64) -> Seq<RegisteredView> {
    if has_endpoint(eps, id) {
        let l = merged_labels(eps[endpoint_index(eps, id)].labels, labels);
        eps.update(endpoint_index(eps, id), RegisteredView { info: InternalEndpointInfoView { id, labels: l }, labels: l, semaphore: sem, on_demand: false })
    } else {
        eps.push(RegisteredView { info: InternalEndpointInfoView { id, labels }, labels, semaphore: sem, on_demand: false })
    }
}

/// Register an endpoint under a fresh semaphore of its own.
pub open spec fn register_alone(s: ControlCenterView, id: InternalEndpointIdView, labels: Option<Seq<Seq<char>>>) -> ControlCenterView {
    ControlCenterView {
        endpoints: registry_insert(s.endpoints, id, labels, s.next_semaphore),
        next_semaphore: (s.next_semaphore + 1) as u64,
        ..s
    }
}

/// The internal id of a stand-alone configured endpoint: configured mocks belong to `MockFromConfig`.
pub open spec fn config_internal_id(id: crate::endpoint::EndpointIdView) -> InternalEndpointIdView {
    match id {
        crate::endpoint::EndpointIdView::Tty(t) => InternalEndpointIdView::Tty(t),
        crate::endpoint::EndpointIdView::Mock(m) => InternalEndpointIdView::Mock(MockIdView { user: "MockFromConfig"@, name: m }),
    }
}

/// Register the stand-alone configured endpoints, each under its own semaphore.
pub open spec fn register_config_endpoints(s: ControlCenterView, eps: Seq<crate::config::ConfigEndpointView>) -> ControlCenterView
    decreases eps.len(),
{
    if eps.len() == 0 {
        s
    } else {
        let p = register_config_endpoints(s, eps.drop_last());
        register_alone(p, config_internal_id(eps.last().id), labels_opt(eps.last().labels))
    }
}

/// The owner of the mocks of the group at `index`: `MockGroup<index>`.
pub open spec fn mock_group_owner(index: nat) -> Seq<char> {
    "MockGroup"@ + crate::text::decimal(index)
}

/// The internal id of a group member: a mock of a mock group belongs to the group's owner.
pub open spec fn group_member_id(index: nat, mock_group: bool, id: crate::endpoint::EndpointIdView) -> InternalEndpointIdView {
    if mock_group {
        InternalEndpointIdView::Mock(MockIdView { user: mock_group_owner(index), name: id->Mock_0 })
    } else {
        InternalEndpointIdView::Tty(id->Tty_0)
    }
}

/// Register group members under the group's semaphore, each with the group's
/// labels followed by its own.
pub open spec fn register_members(s: ControlCenterView, index: nat, mock_group: bool, group_labels: Seq<Seq<char>>,
    members: Seq<crate::config::ConfigEndpointView>, sem: u64) -> ControlCenterView
    decreases members.len(),
{
    if members.len() == 0 {
        s
    } else {
        let p = register_members(s, index, mock_group, group_labels, members.drop_last(), sem);
        let e = members.last();
        ControlCenterView {
            endpoints: registry_insert(p.endpoints, group_member_id(index, mock_group, e.id), labels_opt(group_labels + e.labels), sem),
            ..p
        }
    }
}

/// Register the groups, each under one fresh semaphore shared by its members.
pub open spec fn register_groups(s: ControlCenterView, gs: Seq<crate::config::GroupView>) -> ControlCenterView
    decreases gs.len(),
{
    if gs.len() == 0 {
        s
    } else {
        let p = register_groups(s, gs.drop_last());
        let g = gs.last();
        let sem = p.next_semaphore;
        let p2 = ControlCenterView { next_semaphore: (sem + 1) as u64, ..p };
        register_members(p2, (gs.len() - 1) as nat, g.endpoints.last().id is Mock, g.labels, g.endpoints, sem)
    }
}

/// Register serial ports found on the machine, each under its own semaphore.
pub open spec fn register_ports(s: ControlCenterView, ports: Seq<Seq<char>>) -> ControlCenterView
    decreases ports.len(),
{
    if ports.len() == 0 {
        s
    } else {
        let p = register_ports(s, ports.drop_last());
        if has_endpoint(p.endpoints, InternalEndpointIdView::Tty(ports.last())) {
            p
        } else {
            register_alone(p, InternalEndpointIdView::Tty(ports.last()), None)
        }
    }
}

/// The control center set up from a configuration and the serial ports found.
pub open spec fn model_from_config(c: crate::config::ConfigView, ports: Seq<Seq<char>>) -> ControlCenterView {
    let empty = ControlCenterView { endpoints: Seq::empty(), users: Seq::empty(), next_semaphore: 0, share_mocks: false };
    let a = register_config_endpoints(empty, c.endpoints);
    let b = register_groups(a, c.groups);
    register_ports(b, if c.auto_open_serial_ports { ports } else { Seq::empty() })
}

/// Whether every group is non-empty and of one variant, as setting up requires.
pub open spec fn groups_well_formed(c: crate::config::ConfigView) -> bool {
    forall|i: int| 0 <= i < c.groups.len() ==> {
        &&& (#[trigger] c.groups[i]).endpoints.len() > 0
        &&& !crate::config::group_is_mixed(c.groups[i])
    }
}

/// The string views of a list of strings.
pub open spec fn port_views(v: Seq<String>) -> Seq<Seq<char>> {
    v.map_values(|p: String| p@)
}

impl ControlCenter {
    /// Register an endpoint under a semaphore.
    fn insert_endpoint(&mut self, id: InternalEndpointId, labels: Option<Labels>, sem: u64)
        requires
            endpoint_ids_unique(old(self)@.endpoints),
        ensures
            endpoint_ids_unique(final(self)@.endpoints),
            forall|i: int| 0 <= i < final(self)@.endpoints.len() ==> (#[trigger] final(self)@.endpoints[i]).semaphore == sem
                || exists|j: int| 0 <= j < old(self)@.endpoints.len() && final(self)@.endpoints[i].semaphore == (#[trigger] old(self)@.endpoints[j]).semaphore,
            final(self)@ == (ControlCenterView {
                endpoints: registry_insert(old(self)@.endpoints, id@, opt_labels_view(labels), sem),
                ..old(self)@
            }),
    {
        let ghost s0 = self@;
        match self.endpoint_position(&id) {
            Some(p) => {
                let merged = merge_opt_labels(&self.endpoints[p].labels, &labels);
                let first = duplicate_opt_labels(&merged);
                let ghost l = opt_labels_view(labels);
                proof {
                    assert(self.endpoints@[p as int]@ == s0.endpoints[p as int]);
                    assert(s0.endpoints[p as int].info.id == id@);
                }
                self.endpoints.set(p, RegisteredEndpoint { info: InternalEndpointInfo::new(id, first), labels: merged, semaphore: sem, on_demand: false });
                proof {
                    let s = self@;
                    assert forall|i: int| 0 <= i < s.endpoints.len() implies (#[trigger] s.endpoints[i]).semaphore == sem
                        || exists|j: int| 0 <= j < s0.endpoints.len() && s.endpoints[i].semaphore == (#[trigger] s0.endpoints[j]).semaphore by {
                        if i != p as int {
                            assert(s.endpoints[i] == s0.endpoints[i]);
                        }
                    }
                    assert(s.endpoints =~= registry_insert(s0.endpoints, id@, l, sem));
                    assert forall|i: int, j: int|
                        #![trigger s.endpoints[i], s.endpoints[j]]
                        0 <= i < s.endpoints.len() && 0 <= j < s.endpoints.len() && i != j
                        implies s.endpoints[i].info.id != s.endpoints[j].info.id by {
                        assert(s.endpoints[i].info.id == s0.endpoints[i].info.id);
                        assert(s.endpoints[j].info.id == s0.endpoints[j].info.id);
                    }
                }
            },
            None => {
                let ghost l = opt_labels_view(labels);
                let first = duplicate_opt_labels(&labels);
                self.endpoints.push(RegisteredEndpoint { info: InternalEndpointInfo::new(id, first), labels, semaphore: sem, on_demand: false });
                proof {
                    let s = self@;
                    assert forall|i: int| 0 <= i < s.endpoints.len() implies (#[trigger] s.endpoints[i]).semaphore == sem
                        || exists|j: int| 0 <= j < s0.endpoints.len() && s.endpoints[i].semaphore == (#[trigger] s0.endpoints[j]).semaphore by {
                        if i < s0.endpoints.len() {
                            assert(s.endpoints[i] == s0.endpoints[i]);
                        }
                    }
                    assert(s.endpoints =~= registry_insert(s0.endpoints, id@, l, sem));
                    assert forall|i: int, j: int|
                        #![trigger s.endpoints[i], s.endpoints[j]]
                        0 <= i < s.endpoints.len() && 0 <= j < s.endpoints.len() && i != j
                        implies s.endpoints[i].info.id != s.endpoints[j].info.id by {
                        if i < s0.endpoints.len() && j < s0.endpoints.len() {
                            assert(s.endpoints[i] == s0.endpoints[i]);
                            assert(s.endpoints[j] == s0.endpoints[j]);
                        } else if i < s0.endpoints.len() {
                            assert(s.endpoints[i] == s0.endpoints[i]);
                        } else {
                            assert(s.endpoints[j] == s0.endpoints[j]);
                        }
                    }
                }
            },
        }
    }

    /// Set up the control center from a configuration and the serial ports found
    /// on the machine (used only when the configuration opens them automatically).
    /// Stand-alone endpoints and found ports get a semaphore each; each group
    /// gets one semaphore for all its members. An endpoint configured on its
    /// own and again in a group is one endpoint of the group, carrying the
    /// labels of both; a found port that is configured already is left as
    /// configured.
    pub fn new(config: &crate::config::Config, available_ports: &Vec<String>) -> (cc: Self)
        requires
            groups_well_formed(config@),
            config@.endpoints.len() + config@.groups.len() + available_ports@.len() < u64::MAX,
        ensures
            cc.wf(),
            cc@ == model_from_config(config@, port_views(available_ports@)),
            cc@.users.len() == 0,
    {
        let mut cc = ControlCenter::empty();
        let ghost empty = cc@;
        proof {
            assert(empty.endpoints =~= Seq::<RegisteredView>::empty());
            assert(empty.users =~= Seq::<UserEntryView>::empty());
            assert(empty == ControlCenterView { endpoints: Seq::empty(), users: Seq::empty(), next_semaphore: 0, share_mocks: false });
        }
        let mut i: usize = 0;
        proof { reveal_strlit("MockFromConfig"); }
        while i < config.endpoints.len()
            invariant
                i <= config.endpoints@.len(),
                endpoint_ids_unique(cc@.endpoints),
                cc@ == register_config_endpoints(empty, config@.endpoints.subrange(0, i as int)),
                cc@.next_semaphore == i,
                cc@.users == Seq::<UserEntryView>::empty(),
                forall|x: int| 0 <= x < cc@.endpoints.len() ==> (#[trigger] cc@.endpoints[x]).semaphore < cc@.next_semaphore,

                config@.endpoints.len() + config@.groups.len() + available_ports@.len() < u64::MAX,
            decreases config.endpoints@.len() - i,
        {
            let e = &config.endpoints[i];
            let id = match &e.id {
                crate::endpoint::EndpointId::Tty(t) => InternalEndpointId::Tty(t.clone()),
                crate::endpoint::EndpointId::Mock(m) => InternalEndpointId::Mock(MockId::new("MockFromConfig", m.as_str())),
            };
            let labels = if e.labels.is_empty() { None } else { Some(e.labels.duplicate()) };
            let sem = cc.next_semaphore;
            let ghost before = cc@;
            cc.insert_endpoint(id, labels, sem);
            cc.next_semaphore = sem + 1;
            proof {
                let next = config@.endpoints.subrange(0, i + 1);
                assert(next.drop_last() =~= config@.endpoints.subrange(0, i as int));
                assert(next.last() == config.endpoints@[i as int]@);
                assert(config@.endpoints[i as int] == e@);
            }
            i += 1;
        }
        proof {
            assert(config@.endpoints.subrange(0, config@.endpoints.len() as int) =~= config@.endpoints);
        }
        let ghost after_eps = cc@;
        let mut g: usize = 0;
        while g < config.groups.len()
            invariant
                g <= config.groups@.len(),
                groups_well_formed(config@),
                endpoint_ids_unique(cc@.endpoints),
                cc@ == register_groups(after_eps, config@.groups.subrange(0, g as int)),
                cc@.next_semaphore == config@.endpoints.len() + g,
                cc@.users == Seq::<UserEntryView>::empty(),
                forall|x: int| 0 <= x < cc@.endpoints.len() ==> (#[trigger] cc@.endpoints[x]).semaphore < cc@.next_semaphore,

                config@.endpoints.len() + config@.groups.len() + available_ports@.len() < u64::MAX,
            decreases config.groups@.len() - g,
        {
            let group = &config.groups[g];
            proof {
                assert(config@.groups[g as int] == group@);
                assert(group@.endpoints.len() > 0);
                assert(!crate::config::group_is_mixed(group@));
            }
            let mock_group = group.is_mock_group();
            let sem = cc.next_semaphore;
            cc.next_semaphore = sem + 1;
            let ghost start = cc@;
            let owner = if mock_group {
                proof { reveal_strlit("MockGroup"); }
                let mut o = owned("MockGroup");
                let n = crate::text::decimal_string(g);
                o.append(n.as_str());
                o
            } else {
                String::new()
            };
            let mut k: usize = 0;
            while k < group.endpoints.len()
                invariant
                    k <= group.endpoints@.len(),
                    g < config.groups@.len(),
                    group == &config.groups@[g as int],
                    cc@.next_semaphore == start.next_semaphore,
                    cc@.users == start.users,
                    sem < cc@.next_semaphore,
                    forall|x: int| 0 <= x < cc@.endpoints.len() ==> (#[trigger] cc@.endpoints[x]).semaphore < cc@.next_semaphore,

                    group@.endpoints.len() > 0,
                    !crate::config::group_is_mixed(group@),
                    mock_group == (group@.endpoints.last().id is Mock),
                    mock_group ==> owner@ == mock_group_owner(g as nat),
                    endpoint_ids_unique(cc@.endpoints),
                    cc@ == register_members(start, g as nat, mock_group, group@.labels, group@.endpoints.subrange(0, k as int), sem),
                decreases group.endpoints@.len() - k,
            {
                let ce = &group.endpoints[k];
                proof {
                    assert(group@.endpoints[k as int] == ce@);
                    let last = group@.endpoints.last();
                    if last.id is Mock && !(ce@.id is Mock) {
                        assert(crate::config::group_is_mixed(group@));
                    }
                    if !(last.id is Mock) && ce@.id is Mock {
                        assert(crate::config::group_is_mixed(group@));
                    }
                }
                let id = match &ce.id {
                    crate::endpoint::EndpointId::Mock(m) => InternalEndpointId::Mock(MockId::new(owner.as_str(), m.as_str())),
                    crate::endpoint::EndpointId::Tty(t) => InternalEndpointId::Tty(t.clone()),
                };
                let mut labels = group.labels.duplicate();
                let mut li: usize = 0;
                let own = ce.labels.iter();
                while li < own.len()
                    invariant
                        li <= own@.len(),
                        crate::endpoint::label_views(own@) == ce@.labels,
                        labels@ == group@.labels + ce@.labels.subrange(0, li as int),
                    decreases own@.len() - li,
                {
                    labels.push_label(own[li].duplicate());
                    proof {
                        assert(ce@.labels[li as int] == own@[li as int]@);
                        assert(ce@.labels.subrange(0, li + 1) =~= ce@.labels.subrange(0, li as int).push(ce@.labels[li as int]));
                        assert(group@.labels + ce@.labels.subrange(0, li + 1) =~= (group@.labels + ce@.labels.subrange(0, li as int)).push(ce@.labels[li as int]));
                    }
                    li += 1;
                }
                proof {
                    assert(ce@.labels.subrange(0, own@.len() as int) =~= ce@.labels);
                }
                let labels_opt = if labels.is_empty() { None } else { Some(labels) };
                cc.insert_endpoint(id, labels_opt, sem);
                proof {
                    let next = group@.endpoints.subrange(0, k + 1);
                    assert(next.drop_last() =~= group@.endpoints.subrange(0, k as int));
                    assert(next.last() == ce@);
                }
                k += 1;
            }
            proof {
                assert(group@.endpoints.subrange(0, group@.endpoints.len() as int) =~= group@.endpoints);
                let next = config@.groups.subrange(0, g + 1);
                assert(next.drop_last() =~= config@.groups.subrange(0, g as int));
                assert(next.last() == group@);
            }
            g += 1;
        }
        proof {
            assert(config@.groups.subrange(0, config@.groups.len() as int) =~= config@.groups);
        }
        let ghost after_groups = cc@;
        if config.auto_open_serial_ports {
            let mut p: usize = 0;
            while p < available_ports.len()
                invariant
                    p <= available_ports@.len(),
                    endpoint_ids_unique(cc@.endpoints),
                    cc@ == register_ports(after_groups, port_views(available_ports@).subrange(0, p as int)),
                cc@.users == Seq::<UserEntryView>::empty(),
                forall|x: int| 0 <= x < cc@.endpoints.len() ==> (#[trigger] cc@.endpoints[x]).semaphore < cc@.next_semaphore,

                    cc@.next_semaphore <= config@.endpoints.len() + config@.groups.len() + p,
                    config@.endpoints.len() + config@.groups.len() + available_ports@.len() < u64::MAX,
                decreases available_ports@.len() - p,
            {
                let port = InternalEndpointId::Tty(available_ports[p].clone());
                if cc.endpoint_position(&port).is_none() {
                    let sem = cc.next_semaphore;
                    cc.insert_endpoint(port, None, sem);
                    cc.next_semaphore = sem + 1;
                }
                proof {
                    let next = port_views(available_ports@).subrange(0, p + 1);
                    assert(next.drop_last() =~= port_views(available_ports@).subrange(0, p as int));
                    assert(next.last() == available_ports@[p as int]@);
                }
                p += 1;
            }
            proof {
                assert(port_views(available_ports@).subrange(0, available_ports@.len() as int) =~= port_views(available_ports@));
            }
        }
        cc
    }
}

/// Information the control center is given about what happened.
#[derive(Debug)]
pub enum Inform {
    /// A user arrived.
    UserArrived(User),
    /// A user left.
    UserLeft(User),
    /// A user was granted control of `got` after asking with `request`.
    NowControlling {
        /// The user.
        user: User,
        /// What they asked for.
        request: UserRequest,
        /// What they now control.
        got: Vec<InternalEndpointInfo>,
    },
    /// A user received a message from an endpoint.
    MessageReceived((User, InternalEndpointInfo, crate::serial::SerialMessage)),
    /// A user put a message on an endpoint's wire.
    MessageSent((User, InternalEndpointId, crate::serial::SerialMessage)),
}

/// The mathematical value of an [`Inform`].
pub enum InformView {
    /// Arrived.
    UserArrived(Seq<char>),
    /// Left.
    UserLeft(Seq<char>),
    /// Now controlling.
    NowControlling { user: Seq<char>, request: UserRequestView, got: Seq<InternalEndpointInfoView> },
    /// Received.
    MessageReceived(Seq<char>, InternalEndpointInfoView, Seq<char>),
    /// Sent.
    MessageSent(Seq<char>, InternalEndpointIdView, Seq<char>),
}

impl View for Inform {
    type V = InformView;

    open spec fn view(&self) -> InformView {
        match self {
            Inform::UserArrived(u) => InformView::UserArrived(u@),
            Inform::UserLeft(u) => InformView::UserLeft(u@),
            Inform::NowControlling { user, request, got } =>
                InformView::NowControlling { user: user@, request: request@, got: info_views(got@) },
            Inform::MessageReceived((u, i, m)) => InformView::MessageReceived(u@, i@, m@),
            Inform::MessageSent((u, id, m)) => InformView::MessageSent(u@, id@, m@),
        }
    }
}

/// When a piece of information makes sense: arrivals are of unknown users,
/// departures and grants of known ones, a grant names endpoints of one free
/// semaphore, and a sent message went to a known endpoint.
pub open spec fn inform_allowed(s: ControlCenterView, i: InformView) -> bool {
    match i {
        InformView::UserArrived(u) => !has_user(s.users, u),
        InformView::UserLeft(u) => has_user(s.users, u),
        InformView::NowControlling { user, request, got } => has_user(s.users, user) && can_take_control(s, user, got),
        InformView::MessageReceived(_, _, _) => true,
        InformView::MessageSent(_, id, _) => has_endpoint(s.endpoints, id),
    }
}

/// The next state and the effects of a piece of information.
pub open spec fn model_inform(s: ControlCenterView, i: InformView) -> (ControlCenterView, Seq<EffectView>) {
    match i {
        InformView::UserArrived(u) => (
            ControlCenterView { users: s.users.push(UserEntryView { name: u, state: empty_user_state() }), ..s },
            seq![emit(u, EventView::Connected)],
        ),
        InformView::UserLeft(u) => model_user_left(s, u),
        InformView::NowControlling { user, request, got } => model_now_controlling(s, user, request, got),
        InformView::MessageReceived(u, info, m) => (s, seq![emit(u, EventView::MessageReceived(info, m))]),
        InformView::MessageSent(u, id, m) => (s, seq![emit(u, EventView::MessageSent(info_of(s, id), m))]),
    }
}

impl ControlCenter {
    /// Take in a piece of information about what happened.
    pub fn handle_information(&mut self, information: Inform, effects: &mut Vec<Effect>)
        requires
            old(self).wf(),
            inform_allowed(old(self)@, information@),
        ensures
            final(self).wf(),
            final(self)@ == model_inform(old(self)@, information@).0,
            effect_views(final(effects)@) == effect_views(old(effects)@) + model_inform(old(self)@, information@).1,
    {
        let ghost fx0 = effect_views(effects@);
        match information {
            Inform::UserArrived(user) => {
                self.user_arrived(&user, effects);
                proof { assert(effect_views(effects@) =~= fx0 + seq![emit(user@, EventView::Connected)]); }
            },
            Inform::UserLeft(user) => self.user_left(&user, effects),
            Inform::NowControlling { user, request, got } => self.now_controlling(&user, &request, &got, effects),
            Inform::MessageReceived((user, info, message)) => {
                self.message_received(&user, &info, &message, effects);
                proof {
                    assert(effect_views(effects@) =~= fx0 + seq![emit(user@, EventView::MessageReceived(info@, message@))]);
                }
            },
            Inform::MessageSent((user, id, message)) => {
                self.message_sent(&user, &id, &message, effects);
                proof {
                    assert(effect_views(effects@) =~= fx0 + seq![emit(user@, EventView::MessageSent(info_of(self@, id@), message@))]);
                }
            },
        }
    }
}

/// The endpoint a user means: a mock name is the user's own mock of that name.
pub open spec fn internal_of(user: Seq<char>, id: crate::endpoint::EndpointIdView) -> InternalEndpointIdView {
    match id {
        crate::endpoint::EndpointIdView::Tty(t) => InternalEndpointIdView::Tty(t),
        crate::endpoint::EndpointIdView::Mock(name) => InternalEndpointIdView::Mock(MockIdView { user, name }),
    }
}

/// The endpoint a user means by an id: a mock name is the user's own mock of that name.
pub fn id_to_internal(user: &User, id: &crate::endpoint::EndpointId) -> (internal: InternalEndpointId)
    ensures
        internal@ == internal_of(user@, id@),
{
    match id {
        crate::endpoint::EndpointId::Tty(t) => InternalEndpointId::Tty(t.clone()),
        crate::endpoint::EndpointId::Mock(name) => InternalEndpointId::Mock(MockId { user: user.duplicate(), name: name.clone() }),
    }
}

/// Whether a registered endpoint is a mock of this name, whoever it belongs to.
pub open spec fn is_mock_named(e: RegisteredView, name: Seq<char>) -> bool {
    e.info.id matches InternalEndpointIdView::Mock(m) && m.name == name
}

/// Whether some registered mock has this name.
pub open spec fn has_mock_named(eps: Seq<RegisteredView>, name: Seq<char>) -> bool {
    exists|k: int| 0 <= k < eps.len() && is_mock_named(#[trigger] eps[k], name)
}

/// The position of the first registered mock of this name.
pub open spec fn first_mock_named(eps: Seq<RegisteredView>, name: Seq<char>) -> int {
    choose|k: int| 0 <= k < eps.len() && is_mock_named(#[trigger] eps[k], name)
        && forall|j: int| 0 <= j < k ==> !is_mock_named(#[trigger] eps[j], name)
}

/// The endpoint a user means by an id. With shared mocks, a mock name that is
/// registered means that registered mock, whoever made it; otherwise a mock
/// name is the user's own mock of that name.
pub open spec fn resolve_id(s: ControlCenterView, user: Seq<char>, id: crate::endpoint::EndpointIdView) -> InternalEndpointIdView {
    match id {
        crate::endpoint::EndpointIdView::Mock(name) =>
            if s.share_mocks && has_mock_named(s.endpoints, name) {
                s.endpoints[first_mock_named(s.endpoints, name)].info.id
            } else {
                internal_of(user, id)
            },
        crate::endpoint::EndpointIdView::Tty(_) => internal_of(user, id),
    }
}

impl ControlCenter {
    /// Choose whether a mock of a given name is one endpoint shared by every
    /// user (`true`) or each user's own (`false`, the default).
    pub fn set_share_mocks(&mut self, share: bool)
        requires
            old(self).wf(),
        ensures
            final(self).wf(),
            final(self)@ == (ControlCenterView { share_mocks: share, ..old(self)@ }),
    {
        self.share_mocks = share;
    }

    /// The endpoint a user means by an id, in this control center's mode: see [`resolve_id`].
    pub fn internal_id(&self, user: &User, id: &crate::endpoint::EndpointId) -> (internal: InternalEndpointId)
        ensures
            internal@ == resolve_id(self@, user@, id@),
    {
        match id {
            crate::endpoint::EndpointId::Mock(name) => {
                if self.share_mocks {
                    let ghost eps = self@.endpoints;
                    let mut i: usize = 0;
                    while i < self.endpoints.len()
                        invariant
                            i <= self.endpoints@.len(),
                            eps == self@.endpoints,
                            eps.len() == self.endpoints@.len(),
                            self@.share_mocks,
                            id@ == crate::endpoint::EndpointIdView::Mock(name@),
                            forall|j: int| 0 <= j < i ==> !is_mock_named(#[trigger] eps[j], name@),
                        decreases self.endpoints@.len() - i,
                    {
                        let found = match &self.endpoints[i].info.id {
                            InternalEndpointId::Mock(m) => m.name == *name,
                            InternalEndpointId::Tty(_) => false,
                        };
                        proof {
                            assert(eps[i as int] == self.endpoints@[i as int]@);
                        }
                        if found {
                            let r = self.endpoints[i].info.id.duplicate();
                            proof {
                                assert(r@ == eps[i as int].info.id);
                                assert(is_mock_named(eps[i as int], name@));
                                assert(has_mock_named(eps, name@));
                                let k = first_mock_named(eps, name@);
                                assert(0 <= k < eps.len() && is_mock_named(eps[k], name@)
                                    && forall|j: int| 0 <= j < k ==> !is_mock_named(#[trigger] eps[j], name@));
                                if k < i {
                                    assert(!is_mock_named(eps[k], name@));
                                }
                                if k > i {
                                    assert(!is_mock_named(eps[i as int], name@));
                                }
                                assert(k == i);
                                assert(resolve_id(self@, user@, id@) == eps[k].info.id);
                            }
                            return r;
                        }
                        i += 1;
                    }
                    proof {
                        if has_mock_named(eps, name@) {
                            let k = choose|k: int| 0 <= k < eps.len() && is_mock_named(#[trigger] eps[k], name@);
                            assert(!is_mock_named(eps[k], name@));
                        }
                    }
                }
                id_to_internal(user, id)
            },
            crate::endpoint::EndpointId::Tty(_) => id_to_internal(user, id),
        }
    }
}

/// Whether the user holds the semaphore guarding a known endpoint, so may write to it.
pub open spec fn may_write(s: ControlCenterView, user: Seq<char>, id: InternalEndpointIdView) -> bool {
    has_endpoint(s.endpoints, id) && state_of(s, user).in_control_of.contains(entry_of(s, id).semaphore)
}

/// The error for writing without control.
pub open spec fn no_write_permit(id: InternalEndpointIdView) -> ErrorView {
    ErrorView::NoPermit("write "@ + crate::endpoint::display_endpoint_id(crate::endpoint::external_id(id)))
}

impl ControlCenter {
    /// Whether the user may write to the endpoint: only while holding its
    /// semaphore. Otherwise the error names the endpoint.
    pub fn write_permission(&self, user: &User, id: &InternalEndpointId) -> (r: Result<(), Error>)
        requires
            self.wf(),
            has_user(self@.users, user@),
        ensures
            r is Ok <==> may_write(self@, user@, id@),
            r is Err ==> r->Err_0@ == no_write_permit(id@),
    {
        proof { reveal_strlit("write "); }
        let refusal = || -> (e: Error)
            ensures
                e@ == no_write_permit(id@),
        {
            let mut m = owned("write ");
            let shown = id.to_endpoint_id().display();
            m.append(shown.as_str());
            Error::NoPermit(m)
        };
        let p = match self.endpoint_position(id) {
            Some(p) => p,
            None => { return Err(refusal()); },
        };
        let ui = match self.user_position(user) {
            Some(ui) => ui,
            None => { return Err(refusal()); },
        };
        proof {
            assert(self@.users[ui as int].state == state_of(self@, user@));
        }
        if contains_u64(&self.users[ui].state.in_control_of, self.endpoints[p].semaphore) {
            Ok(())
        } else {
            Err(refusal())
        }
    }
}

/// How a request for control is shown: the endpoint, or the labels.
pub open spec fn display_request(r: UserRequestView) -> Seq<char> {
    match r {
        UserRequestView::EndpointId(id) => crate::endpoint::display_endpoint_id(id),
        UserRequestView::Labels(l) => crate::endpoint::display_labels(l),
    }
}

/// How a piece of information is shown in the server's log.
pub open spec fn display_inform(i: InformView) -> Seq<char> {
    match i {
        InformView::UserArrived(u) => "user arrived: "@ + u,
        InformView::UserLeft(u) => "user left: "@ + u,
        InformView::NowControlling { user, request, got } => user + " now controlling, ctx: "@ + display_request(request),
        InformView::MessageReceived(u, info, m) =>
            "user "@ + u + " got message "@ + crate::serial::display_message(m) + " via "@ + display_info(info),
        InformView::MessageSent(u, id, m) =>
            "user "@ + u + " sent message "@ + crate::serial::display_message(m) + " via "@ + display_internal_id(id),
    }
}

impl UserRequest {
    /// As shown to people: the endpoint, or the labels.
    pub fn display(&self) -> (s: String)
        ensures
            s@ == display_request(self@),
    {
        match self {
            UserRequest::EndpointId(id) => id.display(),
            UserRequest::Labels(l) => l.display(),
        }
    }
}

/// `user <name> <verb> message <message> via <endpoint>`.
fn message_line(user: &User, verb: &str, message: &crate::serial::SerialMessage, via: &String) -> (s: String)
    ensures
        s@ == "user "@ + user@ + verb@ + crate::serial::display_message(message@) + " via "@ + via@,
{
    proof {
        reveal_strlit("user ");
        reveal_strlit(" via ");
    }
    let mut s = owned("user ");
    let name = user.display();
    s.append(name.as_str());
    s.append(verb);
    let m = message.display();
    s.append(m.as_str());
    s.append(" via ");
    s.append(via.as_str());
    s
}

impl Inform {
    /// As shown in the server's log.
    pub fn display(&self) -> (s: String)
        ensures
            s@ == display_inform(self@),
    {
        proof {
            reveal_strlit("user arrived: ");
            reveal_strlit("user left: ");
            reveal_strlit(" now controlling, ctx: ");
            reveal_strlit(" got message ");
            reveal_strlit(" sent message ");
        }
        match self {
            Inform::UserArrived(u) => {
                let mut s = owned("user arrived: ");
                let n = u.display();
                s.append(n.as_str());
                s
            },
            Inform::UserLeft(u) => {
                let mut s = owned("user left: ");
                let n = u.display();
                s.append(n.as_str());
                s
            },
            Inform::NowControlling { user, request, got: _ } => {
                let mut s = user.display();
                s.append(" now controlling, ctx: ");
                let r = request.display();
                s.append(r.as_str());
                s
            },
            Inform::MessageReceived((u, info, m)) => {
                let via = info.display();
                message_line(u, " got message ", m, &via)
            },
            Inform::MessageSent((u, id, m)) => {
                let via = id.display();
                message_line(u, " sent message ", m, &via)
            },
        }
    }
}

/// The attempts of a control-any request, candidate after candidate: asking
/// control of each, then holding its group if its permit was free, or queueing
/// for the whole group if not. `free[i]` tells whether candidate `i`'s permit was free.
pub open spec fn model_attempts(s: ControlCenterView, user: Seq<char>, cands: Seq<InternalEndpointInfoView>, free: Seq<bool>)
    -> (ControlCenterView, Seq<ControlAttemptView>, Seq<EffectView>)
    decreases cands.len(),
{
    if cands.len() == 0 {
        (s, Seq::empty(), Seq::empty())
    } else {
        let before = model_attempts(s, user, cands.drop_last(), free);
        let asked = model_control(before.0, user, cands.last().id);
        match asked.1 {
            Err(e) => (asked.0, before.1.push(ControlAttemptView::Failed(e)), before.2 + asked.2),
            Ok(t) => {
                let held = model_attempt(asked.0, user, t.group, free[cands.len() - 1]);
                (held.0, before.1.push(held.1), before.2 + asked.2 + held.2)
            },
        }
    }
}

/// A control-any request makes one attempt per candidate.
proof fn lemma_attempts_len(s: ControlCenterView, user: Seq<char>, cands: Seq<InternalEndpointInfoView>, free: Seq<bool>)
    ensures
        model_attempts(s, user, cands, free).1.len() == cands.len(),
    decreases cands.len(),
{
    if cands.len() > 0 {
        lemma_attempts_len(s, user, cands.drop_last(), free);
    }
}

/// The first granted attempt.
pub open spec fn first_granted(attempts: Seq<ControlAttemptView>) -> int {
    choose|i: int| 0 <= i < attempts.len() && attempts[i] is Granted
        && forall|j: int| 0 <= j < i ==> !(#[trigger] attempts[j] is Granted)
}

/// What a control-any request answers from its attempts: an error naming all
/// candidates and errors when every attempt failed; else the first granted
/// candidate; else a queue for the endpoints of every group queued for.
pub open spec fn decision_of(cands: Seq<InternalEndpointInfoView>, attempts: Seq<ControlAttemptView>)
    -> Result<ControlAnyDecisionView, ErrorView>
{
    if all_failed(attempts) {
        Err(ErrorView::BadUsage(all_failed_message(cands, attempt_errors(attempts))))
    } else if exists|i: int| 0 <= i < attempts.len() && (#[trigger] attempts[i]) is Granted {
        Ok(ControlAnyDecisionView::Granted(first_granted(attempts) as nat))
    } else {
        Ok(ControlAnyDecisionView::Queued(queued_endpoints(attempts)))
    }
}

/// A whole control-any request: the candidates matching the labels (or why
/// there are none), the attempts on them, and the answer.
pub open spec fn model_control_any(s: ControlCenterView, user: Seq<char>, labels: Seq<Seq<char>>, free: Seq<bool>)
    -> (ControlCenterView, Result<ControlAnyDecisionView, ErrorView>, Seq<ControlAttemptView>, Seq<EffectView>)
{
    match model_control_any_candidates(s, labels) {
        Err(e) => (s, Err(e), Seq::empty(), Seq::empty()),
        Ok(c) => {
            let a = model_attempts(s, user, c, free);
            (a.0, decision_of(c, a.1), a.1, a.2)
        },
    }
}

/// Whether, for each candidate, the user queues either for the candidate
/// itself (asking again is then refused) or for no endpoint of its group:
/// queueing for part of a group twice is a fault the request does not allow.
pub open spec fn queues_apart(s: ControlCenterView, user: Seq<char>, cands: Seq<InternalEndpointInfoView>) -> bool {
    forall|i: int| 0 <= i < cands.len() ==>
        contains_info_id(state_of(s, user).in_queue_of, (#[trigger] cands[i]).id)
        || disjoint_ids(state_of(s, user).in_queue_of, semaphore_members(s.endpoints, entry_of(s, cands[i].id).semaphore))
}

/// Whether the candidates are registered endpoints of pairwise different semaphores.
pub open spec fn candidates_apart(s: ControlCenterView, cands: Seq<InternalEndpointInfoView>) -> bool {
    &&& forall|i: int| 0 <= i < cands.len() ==> has_endpoint(s.endpoints, (#[trigger] cands[i]).id)
    &&& forall|i: int, j: int| 0 <= i < cands.len() && 0 <= j < cands.len() && i != j
        ==> entry_of(s, (#[trigger] cands[i]).id).semaphore != entry_of(s, (#[trigger] cands[j]).id).semaphore
}

/// The semaphore of the registry entry holding an id.
pub open spec fn sem_of(eps: Seq<RegisteredView>, id: InternalEndpointIdView) -> u64 {
    eps[endpoint_index(eps, id)].semaphore
}

/// The members of a semaphore are registered under it, and no two share an id.
proof fn lemma_members_of(eps: Seq<RegisteredView>, sem: u64)
    requires
        endpoint_ids_unique(eps),
    ensures
        forall|j: int| 0 <= j < semaphore_members(eps, sem).len() ==> {
            &&& has_endpoint(eps, (#[trigger] semaphore_members(eps, sem)[j]).id)
            &&& sem_of(eps, semaphore_members(eps, sem)[j].id) == sem
        },
        info_ids_unique(semaphore_members(eps, sem)),
    decreases eps.len(),
{
    if eps.len() > 0 {
        let p = eps.drop_last();
        assert(endpoint_ids_unique(p)) by {
            assert forall|i: int, j: int| #![trigger p[i], p[j]] 0 <= i < p.len() && 0 <= j < p.len() && i != j
                implies p[i].info.id != p[j].info.id by {
                assert(p[i] == eps[i] && p[j] == eps[j]);
            }
        }
        lemma_members_of(p, sem);
        let pm = semaphore_members(p, sem);
        let m = semaphore_members(eps, sem);
        let n = eps.len() - 1;
        assert forall|j: int| 0 <= j < m.len() implies {
            &&& has_endpoint(eps, (#[trigger] m[j]).id)
            &&& sem_of(eps, m[j].id) == sem
        } by {
            if j < pm.len() {
                assert(m[j] == pm[j]);
                let k = endpoint_index(p, pm[j].id);
                assert(0 <= k < p.len() && p[k].info.id == pm[j].id);
                assert(eps[k] == p[k]);
                lemma_index_of(eps, pm[j].id, k);
            } else {
                assert(m[j] == eps[n].info);
                lemma_index_of(eps, eps[n].info.id, n);
            }
        }
        assert forall|i: int, j: int| 0 <= i < m.len() && 0 <= j < m.len() && i != j
            implies (#[trigger] m[i]).id != (#[trigger] m[j]).id by {
            if i < pm.len() && j < pm.len() {
                assert(m[i] == pm[i] && m[j] == pm[j]);
            } else if i < pm.len() {
                assert(m[i] == pm[i]);
                let k = endpoint_index(p, pm[i].id);
                assert(eps[k] == p[k]);
                assert(eps[k].info.id != eps[n].info.id);
            } else if j < pm.len() {
                assert(m[j] == pm[j]);
                let k = endpoint_index(p, pm[j].id);
                assert(eps[k] == p[k]);
                assert(eps[k].info.id != eps[n].info.id);
            }
        }
    }
}

/// With unique ids, the position of an id is where it is held.
proof fn lemma_index_of(eps: Seq<RegisteredView>, id: InternalEndpointIdView, k: int)
    requires
        endpoint_ids_unique(eps),
        0 <= k < eps.len(),
        eps[k].info.id == id,
    ensures
        has_endpoint(eps, id),
        endpoint_index(eps, id) == k,
{
    let j = endpoint_index(eps, id);
    if j != k {
        assert(eps[j].info.id != eps[k].info.id);
    }
}

impl ControlCenter {
    /// Ask control of each candidate in turn, holding its group when its
    /// permit was free and queueing for its whole group otherwise.
    fn attempt_candidates(&mut self, user: &User, cands: &Vec<InternalEndpointInfo>, free: &Vec<bool>, effects: &mut Vec<Effect>)
        -> (attempts: Vec<ControlAttempt>)
        requires
            old(self).wf(),
            has_user(old(self)@.users, user@),
            old(self)@.next_semaphore < u64::MAX,
            free@.len() == cands@.len(),
            candidates_apart(old(self)@, info_views(cands@)),
            queues_apart(old(self)@, user@, info_views(cands@)),
        ensures
            final(self).wf(),
            final(self)@ == model_attempts(old(self)@, user@, info_views(cands@), free@).0,
            attempt_views(attempts@) == model_attempts(old(self)@, user@, info_views(cands@), free@).1,
            effect_views(final(effects)@) == effect_views(old(effects)@) + model_attempts(old(self)@, user@, info_views(cands@), free@).2,
    {
        let ghost s0 = self@;
        let ghost fx0 = effect_views(effects@);
        let ghost c = info_views(cands@);
        let ghost q0 = state_of(s0, user@).in_queue_of;
        let mut attempts: Vec<ControlAttempt> = Vec::new();
        let mut i: usize = 0;
        proof {
            assert(c.subrange(0, 0) =~= Seq::<InternalEndpointInfoView>::empty());
            assert(attempt_views(attempts@) =~= Seq::<ControlAttemptView>::empty());
            assert(effect_views(effects@) =~= fx0 + Seq::<EffectView>::empty());
        }
        while i < cands.len()
            invariant
                i <= cands@.len(),
                c == info_views(cands@),
                free@.len() == cands@.len(),
                self.wf(),
                has_user(self@.users, user@),
                self@.endpoints == s0.endpoints,
                self@.next_semaphore == s0.next_semaphore,
                s0.next_semaphore < u64::MAX,
                cc_wf(s0),
                candidates_apart(s0, c),
                queues_apart(s0, user@, c),
                q0 == state_of(s0, user@).in_queue_of,
                self@ == model_attempts(s0, user@, c.subrange(0, i as int), free@).0,
                attempt_views(attempts@) == model_attempts(s0, user@, c.subrange(0, i as int), free@).1,
                effect_views(effects@) == fx0 + model_attempts(s0, user@, c.subrange(0, i as int), free@).2,
                state_of(self@, user@).in_queue_of.len() >= q0.len(),
                forall|x: int| 0 <= x < q0.len() ==> #[trigger] state_of(self@, user@).in_queue_of[x] == q0[x],
                forall|x: int| 0 <= x < state_of(self@, user@).in_queue_of.len() ==> {
                    let e = #[trigger] state_of(self@, user@).in_queue_of[x];
                    contains_info_id(q0, e.id) || (has_endpoint(s0.endpoints, e.id) && exists|j: int| 0 <= j < i
                        && sem_of(s0.endpoints, e.id) == #[trigger] sem_of(s0.endpoints, c[j].id))
                },
            decreases cands@.len() - i,
        {
            let ghost before = self@;
            let ghost pre = c.subrange(0, i as int);
            let ghost next = c.subrange(0, i + 1);
            let ghost fx_before = effect_views(effects@);
            proof {
                assert(next.drop_last() =~= pre);
                assert(next.last() == c[i as int]);
                assert(c[i as int] == cands@[i as int]@);
                assert(has_endpoint(s0.endpoints, c[i as int].id));
            }
            let r = self.control(user, cands[i].id.duplicate(), effects);
            match r {
                Err(e) => {
                    let ghost ev = e@;
                    attempts.push(ControlAttempt::Failed(e));
                    proof {
                        assert(attempt_views(attempts@) =~= model_attempts(s0, user@, pre, free@).1.push(ControlAttemptView::Failed(ev)));
                        assert(effect_views(effects@) =~= fx0 + (model_attempts(s0, user@, pre, free@).2 + model_control(before, user@, c[i as int].id).2));
                    }
                },
                Ok(target) => {
                    let ghost t = target@;
                    let ghost m = self@;
                    proof {
                        assert(with_mock(before, c[i as int].id) == before);
                        assert(m == before);
                        let sem = entry_of(s0, c[i as int].id).semaphore;
                        assert(t.group == semaphore_members(s0.endpoints, sem));
                        lemma_members_of(s0.endpoints, sem);
                        if !free@[i as int] {
                            assert(!contains_info_id(state_of(m, user@).in_queue_of, c[i as int].id));
                            if contains_info_id(q0, c[i as int].id) {
                                let x = choose|x: int| 0 <= x < q0.len() && (#[trigger] q0[x]).id == c[i as int].id;
                                assert(state_of(m, user@).in_queue_of[x] == q0[x]);
                            }
                            assert(disjoint_ids(q0, t.group));
                            assert forall|k: int| 0 <= k < t.group.len()
                                implies !contains_info_id(state_of(m, user@).in_queue_of, (#[trigger] t.group[k]).id) by {
                                let g = t.group[k];
                                assert(sem_of(s0.endpoints, g.id) == sem);
                                assert(!contains_info_id(q0, g.id));
                                if contains_info_id(state_of(m, user@).in_queue_of, g.id) {
                                    let x = choose|x: int| 0 <= x < state_of(m, user@).in_queue_of.len()
                                        && (#[trigger] state_of(m, user@).in_queue_of[x]).id == g.id;
                                    let e = state_of(m, user@).in_queue_of[x];
                                    if !contains_info_id(q0, e.id) {
                                        let j = choose|j: int| 0 <= j < i
                                            && sem_of(s0.endpoints, e.id) == #[trigger] sem_of(s0.endpoints, c[j].id);
                                        assert(entry_of(s0, c[j].id).semaphore != entry_of(s0, c[i as int].id).semaphore);
                                    }
                                }
                            }
                        }
                    }
                    let a = self.attempt_control(user, &target, free[i], effects);
                    let ghost av = a@;
                    attempts.push(a);
                    proof {
                        if !free@[i as int] {
                            let st = state_of(m, user@);
                            crate::control_center::laws::lemma_with_state(m, user@,
                                UserStateView { in_queue_of: st.in_queue_of + t.group, ..st });
                        }
                        assert(attempt_views(attempts@) =~= model_attempts(s0, user@, pre, free@).1.push(av));
                        assert(effect_views(effects@) =~= fx0 + (model_attempts(s0, user@, pre, free@).2
                            + model_control(before, user@, c[i as int].id).2 + model_attempt(m, user@, t.group, free@[i as int]).2));
                        let sem = entry_of(s0, c[i as int].id).semaphore;
                        if !free@[i as int] {
                            let old_q = state_of(m, user@).in_queue_of;
                            assert(state_of(self@, user@).in_queue_of == old_q + t.group);
                            assert forall|x: int| 0 <= x < q0.len() implies #[trigger] state_of(self@, user@).in_queue_of[x] == q0[x] by {
                                assert(old_q[x] == q0[x]);
                            }
                        }
                        assert forall|x: int| 0 <= x < state_of(self@, user@).in_queue_of.len() implies {
                            let e = #[trigger] state_of(self@, user@).in_queue_of[x];
                            contains_info_id(q0, e.id) || (has_endpoint(s0.endpoints, e.id) && exists|j: int| 0 <= j < i + 1
                                && sem_of(s0.endpoints, e.id) == #[trigger] sem_of(s0.endpoints, c[j].id))
                        } by {
                            let old_q = state_of(m, user@).in_queue_of;
                            let e = state_of(self@, user@).in_queue_of[x];
                            if free@[i as int] {
                                assert(self@ == m);
                            } else {
                                assert(state_of(self@, user@).in_queue_of == old_q + t.group);
                                if x < old_q.len() {
                                    assert(e == old_q[x]);
                                    if !contains_info_id(q0, e.id) {
                                        let j = choose|j: int| 0 <= j < i
                                            && sem_of(s0.endpoints, e.id) == #[trigger] sem_of(s0.endpoints, c[j].id);
                                        assert(sem_of(s0.endpoints, e.id) == sem_of(s0.endpoints, c[j].id));
                                    }
                                } else {
                                    let k = x - old_q.len();
                                    assert(e == t.group[k]);
                                    assert(sem_of(s0.endpoints, e.id) == sem_of(s0.endpoints, c[i as int].id));
                                }
                            }
                        }
                    }
                },
            }
            i += 1;
        }
        proof {
            assert(c.subrange(0, c.len() as int) =~= c);
        }
        attempts
    }
}

/// The label matches are registered endpoints, each as registered, each under
/// a semaphore some matching entry holds, and no two under the same semaphore.
proof fn lemma_label_matches_apart(eps: Seq<RegisteredView>, labels: Seq<Seq<char>>)
    requires
        endpoint_ids_unique(eps),
    ensures
        forall|i: int| 0 <= i < label_matches(eps, labels).len() ==> {
            &&& has_endpoint(eps, (#[trigger] label_matches(eps, labels)[i]).id)
            &&& semaphore_matched(eps, labels, sem_of(eps, label_matches(eps, labels)[i].id))
        },
        forall|i: int, j: int| 0 <= i < label_matches(eps, labels).len() && 0 <= j < label_matches(eps, labels).len() && i != j
            ==> sem_of(eps, (#[trigger] label_matches(eps, labels)[i]).id) != sem_of(eps, (#[trigger] label_matches(eps, labels)[j]).id),
    decreases eps.len(),
{
    if eps.len() > 0 {
        let p = eps.drop_last();
        let n = eps.len() - 1;
        let e = eps.last();
        assert(endpoint_ids_unique(p)) by {
            assert forall|i: int, j: int| #![trigger p[i], p[j]] 0 <= i < p.len() && 0 <= j < p.len() && i != j
                implies p[i].info.id != p[j].info.id by {
                assert(p[i] == eps[i] && p[j] == eps[j]);
            }
        }
        lemma_label_matches_apart(p, labels);
        let lp = label_matches(p, labels);
        let l = label_matches(eps, labels);
        // An id of the prefix keeps its semaphore.
        assert forall|i: int| 0 <= i < lp.len() implies {
            &&& has_endpoint(eps, (#[trigger] lp[i]).id)
            &&& sem_of(eps, lp[i].id) == sem_of(p, lp[i].id)
            &&& semaphore_matched(eps, labels, sem_of(p, lp[i].id))
        } by {
            let k = endpoint_index(p, lp[i].id);
            assert(eps[k] == p[k]);
            lemma_index_of(eps, lp[i].id, k);
            let w = choose|w: int| 0 <= w < p.len() && entry_matches(#[trigger] p[w], labels) && p[w].semaphore == sem_of(p, lp[i].id);
            assert(eps[w] == p[w]);
        }
        if entry_matches(e, labels) && !semaphore_matched(p, labels, e.semaphore) {
            assert(l == lp.push(e.info));
            lemma_index_of(eps, e.info.id, n);
            assert(semaphore_matched(eps, labels, e.semaphore));
            assert forall|i: int| 0 <= i < l.len() implies {
                &&& has_endpoint(eps, (#[trigger] l[i]).id)
                &&& semaphore_matched(eps, labels, sem_of(eps, l[i].id))
            } by {
                if i < lp.len() {
                    assert(l[i] == lp[i]);
                } else {
                    assert(l[i] == e.info);
                }
            }
            assert forall|i: int, j: int| 0 <= i < l.len() && 0 <= j < l.len() && i != j
                implies sem_of(eps, (#[trigger] l[i]).id) != sem_of(eps, (#[trigger] l[j]).id) by {
                if i < lp.len() && j < lp.len() {
                    assert(l[i] == lp[i] && l[j] == lp[j]);
                    assert(sem_of(p, lp[i].id) != sem_of(p, lp[j].id));
                } else if i < lp.len() {
                    assert(l[i] == lp[i] && l[j] == e.info);
                    assert(semaphore_matched(p, labels, sem_of(p, lp[i].id)));
                } else {
                    assert(l[j] == lp[j] && l[i] == e.info);
                    assert(semaphore_matched(p, labels, sem_of(p, lp[j].id)));
                }
            }
        } else {
            assert(l == lp);
            assert forall|i: int, j: int| 0 <= i < l.len() && 0 <= j < l.len() && i != j
                implies sem_of(eps, (#[trigger] l[i]).id) != sem_of(eps, (#[trigger] l[j]).id) by {
                assert(sem_of(p, lp[i].id) != sem_of(p, lp[j].id));
            }
        }
    }
}

/// What `decide_control_any` answers is the decision of the attempts.
proof fn lemma_decision(cands: Seq<InternalEndpointInfo>, attempts: Seq<ControlAttempt>, decision: Result<ControlAnyDecision, Error>)
    requires
        all_failed(attempt_views(attempts)) ==> decision is Err && decision->Err_0@ == ErrorView::BadUsage(
            all_failed_message(info_views(cands), attempt_errors(attempt_views(attempts)))),
        !all_failed(attempt_views(attempts)) && (exists|i: int| 0 <= i < attempts.len() && (#[trigger] attempts[i]) is Granted) ==>
            exists|i: int| 0 <= i < attempts.len() && (#[trigger] attempts[i]) is Granted
                && (forall|j: int| 0 <= j < i ==> !(#[trigger] attempts[j] is Granted))
                && decision is Ok && decision->Ok_0@ == ControlAnyDecisionView::Granted(i as nat),
        !all_failed(attempt_views(attempts)) && !(exists|i: int| 0 <= i < attempts.len() && (#[trigger] attempts[i]) is Granted) ==>
            decision is Ok && decision->Ok_0@ == ControlAnyDecisionView::Queued(queued_endpoints(attempt_views(attempts))),
    ensures
        result_view(decision) == decision_of(info_views(cands), attempt_views(attempts)),
{
    let a = attempt_views(attempts);
    assert forall|i: int| 0 <= i < attempts.len() implies (#[trigger] a[i] is Granted) == (attempts[i] is Granted) by {
        assert(a[i] == attempts[i]@);
    }
    if !all_failed(a) && (exists|i: int| 0 <= i < a.len() && (#[trigger] a[i]) is Granted) {
        let w = choose|i: int| 0 <= i < a.len() && (#[trigger] a[i]) is Granted;
        assert(attempts[w] is Granted);
        let g = choose|i: int| 0 <= i < attempts.len() && (#[trigger] attempts[i]) is Granted
            && (forall|j: int| 0 <= j < i ==> !(#[trigger] attempts[j] is Granted))
            && decision is Ok && decision->Ok_0@ == ControlAnyDecisionView::Granted(i as nat);
        assert(a[g] is Granted);
        assert forall|j: int| 0 <= j < g implies !(#[trigger] a[j] is Granted) by {
            assert(!(attempts[j] is Granted));
        }
        let f = first_granted(a);
        assert(0 <= f < a.len() && a[f] is Granted && forall|j: int| 0 <= j < f ==> !(#[trigger] a[j] is Granted));
        if f < g {
            assert(!(a[f] is Granted));
        }
        if g < f {
            assert(!(a[g] is Granted));
        }
    }
    if !all_failed(a) && !(exists|i: int| 0 <= i < a.len() && (#[trigger] a[i]) is Granted) {
        if exists|i: int| 0 <= i < attempts.len() && (#[trigger] attempts[i]) is Granted {
            let w = choose|i: int| 0 <= i < attempts.len() && (#[trigger] attempts[i]) is Granted;
            assert(a[w] is Granted);
        }
    }
}

impl ControlCenter {
    /// A whole control-any request: the candidates are the endpoints matching
    /// the labels (at most one per group), control of each is asked in turn,
    /// and `free[i]` tells whether candidate `i`'s group permit was free. The
    /// answer is the first candidate held, else a queue for every group
    /// queued for, else an error naming every candidate and error. The
    /// attempts are handed back with it.
    pub fn control_any(&mut self, user: &User, labels: &Labels, free: &Vec<bool>, effects: &mut Vec<Effect>)
        -> (r: (Result<ControlAnyDecision, Error>, Vec<ControlAttempt>))
        requires
            old(self).wf(),
            has_user(old(self)@.users, user@),
            old(self)@.next_semaphore < u64::MAX,
            model_control_any_candidates(old(self)@, labels@) is Ok ==> {
                &&& free@.len() == model_control_any_candidates(old(self)@, labels@)->Ok_0.len()
                &&& queues_apart(old(self)@, user@, model_control_any_candidates(old(self)@, labels@)->Ok_0)
            },
        ensures
            final(self).wf(),
            final(self)@ == model_control_any(old(self)@, user@, labels@, free@).0,
            result_view(r.0) == model_control_any(old(self)@, user@, labels@, free@).1,
            attempt_views(r.1@) == model_control_any(old(self)@, user@, labels@, free@).2,
            effect_views(final(effects)@) == effect_views(old(effects)@) + model_control_any(old(self)@, user@, labels@, free@).3,
    {
        let cands = match self.control_any_candidates(labels) {
            Ok(c) => c,
            Err(e) => {
                let none: Vec<ControlAttempt> = Vec::new();
                proof {
                    assert(effect_views(effects@) =~= effect_views(effects@) + Seq::<EffectView>::empty());
                    assert(attempt_views(none@) =~= Seq::<ControlAttemptView>::empty());
                }
                return (Err(e), none);
            },
        };
        let ghost s0 = self@;
        let ghost c = info_views(cands@);
        proof {
            lemma_label_matches_apart(s0.endpoints, labels@);
            assert(c == label_matches(s0.endpoints, labels@));
            assert forall|i: int| 0 <= i < c.len() implies has_endpoint(s0.endpoints, (#[trigger] c[i]).id) by {}
            assert forall|i: int, j: int| 0 <= i < c.len() && 0 <= j < c.len() && i != j
                implies entry_of(s0, (#[trigger] c[i]).id).semaphore != entry_of(s0, (#[trigger] c[j]).id).semaphore by {
                assert(sem_of(s0.endpoints, c[i].id) != sem_of(s0.endpoints, c[j].id));
            }
        }
        let attempts = self.attempt_candidates(user, &cands, free, effects);
        proof {
            lemma_attempts_len(s0, user@, c, free@);
            assert(attempt_views(attempts@).len() == attempts@.len());
        }
        let decision = decide_control_any(&cands, &attempts);
        proof {
            lemma_decision(cands@, attempts@, decision);
        }
        (decision, attempts)
    }
}

} // verus!
