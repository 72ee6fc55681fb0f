//! The desktop frontend's state, apart from its widgets: its settings, the
//! per-user event log it shows, and the server connection form.

use vstd::prelude::*;

use crate::events::Timestamp;
use crate::events::user::{Event, EventView, UserEvent};
use crate::text::{decimal, decimal_string, owned};
use crate::user::User;

verus! {

/// How event times are shown.
#[derive(Debug, Clone, Copy, PartialEq, Eq)]
pub enum TimeDisplaySetting {
    /// Wall clock time of the event.
    Absolute,
    /// Seconds since the user's first event.
    Relative,
    /// No time shown.
    Hidden,
}

impl TimeDisplaySetting {
    /// The setting used unless another is chosen.
    pub fn default() -> (s: Self)
        ensures
            s == TimeDisplaySetting::Absolute,
    {
        TimeDisplaySetting::Absolute
    }

    /// Every setting, in the order offered.
    pub fn all() -> (v: Vec<TimeDisplaySetting>)
        ensures
            v@ == seq![TimeDisplaySetting::Absolute, TimeDisplaySetting::Relative, TimeDisplaySetting::Hidden],
    {
        let v = vec![TimeDisplaySetting::Absolute, TimeDisplaySetting::Relative, TimeDisplaySetting::Hidden];
        proof {
            assert(v@ =~= seq![TimeDisplaySetting::Absolute, TimeDisplaySetting::Relative, TimeDisplaySetting::Hidden]);
        }
        v
    }

    /// The name shown for the setting.
    pub fn label(self) -> (s: String)
        ensures
            s@ == (match self {
                TimeDisplaySetting::Absolute => "Absolute"@,
                TimeDisplaySetting::Relative => "Relative"@,
                TimeDisplaySetting::Hidden => "None"@,
            }),
    {
        match self {
            TimeDisplaySetting::Absolute => owned("Absolute"),
            TimeDisplaySetting::Relative => owned("Relative"),
            TimeDisplaySetting::Hidden => owned("None"),
        }
    }
}

/// Where the tab bar is.
#[derive(Debug, Clone, Copy, PartialEq, Eq)]
pub enum BarPosition {
    /// Above the content.
    Top,
    /// Below the content.
    Bottom,
}

impl BarPosition {
    /// The position used unless another is chosen.
    pub fn default() -> (p: Self)
        ensures
            p == BarPosition::Top,
    {
        BarPosition::Top
    }

    /// Every position, in the order offered.
    pub fn all() -> (v: Vec<BarPosition>)
        ensures
            v@ == seq![BarPosition::Top, BarPosition::Bottom],
    {
        let v = vec![BarPosition::Top, BarPosition::Bottom];
        proof {
            assert(v@ =~= seq![BarPosition::Top, BarPosition::Bottom]);
        }
        v
    }

    /// The name shown for the position.
    pub fn label(self) -> (s: String)
        ensures
            s@ == (match self {
                BarPosition::Top => "Top"@,
                BarPosition::Bottom => "Bottom"@,
            }),
    {
        match self {
            BarPosition::Top => owned("Top"),
            BarPosition::Bottom => owned("Bottom"),
        }
    }
}

/// The landing page tab; it holds nothing.
#[derive(Debug)]
pub struct LandingPageTab {}

impl LandingPageTab {
    /// The tab.
    pub fn new() -> (t: Self) {
        LandingPageTab {}
    }

    /// The tab's title.
    pub fn title(&self) -> (s: String)
        ensures
            s@ == "Servers"@,
    {
        owned("Servers")
    }
}

/// Messages of the scrolling demo tab.
#[derive(Debug, Clone, Copy)]
pub enum ScrollableMessage {
    /// Something was clicked; nothing follows.
    Click,
}

/// The scrolling demo tab; it holds nothing.
#[derive(Debug)]
pub struct ScrollableTab {}

impl ScrollableTab {
    /// The tab.
    pub fn new() -> (t: Self) {
        ScrollableTab {}
    }

    /// A click changes nothing.
    pub fn update(&mut self, message: ScrollableMessage)
        ensures
            *final(self) == *old(self),
    {
        match message {
            ScrollableMessage::Click => {},
        }
    }

    /// The tab's title.
    pub fn title(&self) -> (s: String)
        ensures
            s@ == "User Events"@,
    {
        owned("User Events")
    }
}

/// What the frontend knows of a server's connection.
#[derive(Debug, Clone, Copy, PartialEq, Eq)]
pub struct ConnectionInfo {
    /// When the server was last heard from.
    pub last_heard_from: Timestamp,
    /// When a message was last sent to it.
    pub last_outgoing_message: Timestamp,
    /// Whether it is alive.
    pub alive: bool,
}

/// A server the frontend knows of.
#[derive(Debug)]
pub struct Server {
    /// Its configuration.
    pub config: crate::config::Config,
    /// Its connection.
    pub connection: ConnectionInfo,
}

impl Server {
    /// A stand-in server: default configuration, heard from and written to now, alive.
    pub fn new_mock() -> (s: Self)
        ensures
            s.config@.endpoints.len() == 0,
            s.config@.groups.len() == 0,
            s.connection.alive,
            crate::events::clock_time(s.connection.last_heard_from),
            crate::events::clock_time(s.connection.last_outgoing_message),
    {
        let heard = crate::events::now();
        let out = crate::events::now();
        Server {
            config: crate::config::Config::default(),
            connection: ConnectionInfo { last_heard_from: heard, last_outgoing_message: out, alive: true },
        }
    }
}

/// Lexicographic order of byte strings: a proper prefix comes first.
pub open spec fn bytes_less(a: Seq<u8>, b: Seq<u8>) -> bool
    decreases a.len(),
{
    if a.len() == 0 {
        b.len() > 0
    } else if b.len() == 0 {
        false
    } else if a[0] != b[0] {
        a[0] < b[0]
    } else {
        bytes_less(a.drop_first(), b.drop_first())
    }
}

/// The order of names: `String`'s order, which compares UTF-8 bytes.
pub open spec fn name_less(a: Seq<char>, b: Seq<char>) -> bool {
    bytes_less(vstd::utf8::encode_utf8(a), vstd::utf8::encode_utf8(b))
}

/// Byte strings are ordered one way, the other, or are equal.
pub proof fn lemma_bytes_trichotomy(a: Seq<u8>, b: Seq<u8>)
    ensures
        a == b || bytes_less(a, b) || bytes_less(b, a),
        !(bytes_less(a, b) && bytes_less(b, a)),
        !bytes_less(a, a),
    decreases a.len(),
{
    if a.len() > 0 && b.len() > 0 {
        lemma_bytes_trichotomy(a.drop_first(), b.drop_first());
        if a[0] == b[0] && a.drop_first() == b.drop_first() {
            assert forall|i: int| 0 <= i < a.len() implies a[i] == b[i] by {
                if i > 0 {
                    assert(a[i] == a.drop_first()[i - 1]);
                    assert(b[i] == b.drop_first()[i - 1]);
                }
            }
            assert(a =~= b);
        }
    } else if a.len() == 0 && b.len() == 0 {
        assert(a =~= b);
    }
    if a.len() > 0 {
        lemma_bytes_trichotomy(a.drop_first(), a.drop_first());
    }
}

/// The order of byte strings is transitive.
pub proof fn lemma_bytes_transitive(a: Seq<u8>, b: Seq<u8>, c: Seq<u8>)
    requires
        bytes_less(a, b),
        bytes_less(b, c),
    ensures
        bytes_less(a, c),
    decreases a.len(),
{
    if a.len() > 0 && b.len() > 0 && c.len() > 0 && a[0] == b[0] && b[0] == c[0] {
        lemma_bytes_transitive(a.drop_first(), b.drop_first(), c.drop_first());
    }
}

/// Names are ordered one way, the other, or are equal.
proof fn lemma_name_trichotomy(a: Seq<char>, b: Seq<char>)
    ensures
        a == b || name_less(a, b) || name_less(b, a),
        !(name_less(a, b) && name_less(b, a)),
        !name_less(a, a),
{
    let x = vstd::utf8::encode_utf8(a);
    let y = vstd::utf8::encode_utf8(b);
    lemma_bytes_trichotomy(x, y);
    if x == y {
        vstd::utf8::encode_utf8_decode_utf8(a);
        vstd::utf8::encode_utf8_decode_utf8(b);
    }
}

/// Whether `a` comes before `b`, as `String`'s order says.
pub fn bytes_before(a: &[u8], b: &[u8]) -> (less: bool)
    ensures
        less == bytes_less(a@, b@),
{
    let mut i: usize = 0;
    proof {
        assert(a@.subrange(0, a@.len() as int) =~= a@);
        assert(b@.subrange(0, b@.len() as int) =~= b@);
    }
    while i < a.len() && i < b.len() && a[i] == b[i]
        invariant
            i <= a@.len(),
            i <= b@.len(),
            a@.subrange(0, i as int) == b@.subrange(0, i as int),
            bytes_less(a@, b@) == bytes_less(a@.subrange(i as int, a@.len() as int), b@.subrange(i as int, b@.len() as int)),
        decreases a@.len() - i,
    {
        proof {
            let x = a@.subrange(i as int, a@.len() as int);
            let y = b@.subrange(i as int, b@.len() as int);
            assert(x.drop_first() =~= a@.subrange(i + 1, a@.len() as int));
            assert(y.drop_first() =~= b@.subrange(i + 1, b@.len() as int));
            assert(a@.subrange(0, i + 1) =~= a@.subrange(0, i as int).push(a@[i as int]));
            assert(b@.subrange(0, i + 1) =~= b@.subrange(0, i as int).push(b@[i as int]));
        }
        i += 1;
    }
    proof {
        let x = a@.subrange(i as int, a@.len() as int);
        let y = b@.subrange(i as int, b@.len() as int);
        if i < a.len() && i < b.len() {
            assert(x[0] == a@[i as int] && y[0] == b@[i as int]);
        }
    }
    if i == a.len() {
        i < b.len()
    } else if i == b.len() {
        false
    } else {
        a[i] < b[i]
    }
}

/// An event of a user, and when it happened.
#[derive(Debug)]
pub struct LoggedEvent {
    /// The event.
    pub event: Event,
    /// When.
    pub timestamp: Timestamp,
}

/// The mathematical value of a [`LoggedEvent`].
pub struct LoggedEventView {
    /// The event.
    pub event: EventView,
    /// When.
    pub timestamp: Timestamp,
}

impl View for LoggedEvent {
    type V = LoggedEventView;

    open spec fn view(&self) -> LoggedEventView {
        LoggedEventView { event: self.event@, timestamp: self.timestamp }
    }
}

/// The views of logged events.
pub open spec fn logged_views(v: Seq<LoggedEvent>) -> Seq<LoggedEventView> {
    v.map_values(|e: LoggedEvent| e@)
}

/// The events of one user.
#[derive(Debug)]
pub struct UserLog {
    /// The user.
    pub user: User,
    /// Their events, oldest first.
    pub events: Vec<LoggedEvent>,
}

/// The mathematical value of a [`UserLog`].
pub struct UserLogView {
    /// The user's name.
    pub user: Seq<char>,
    /// Their events.
    pub events: Seq<LoggedEventView>,
}

impl View for UserLog {
    type V = UserLogView;

    open spec fn view(&self) -> UserLogView {
        UserLogView { user: self.user@, events: logged_views(self.events@) }
    }
}

/// The views of user logs.
pub open spec fn log_views(v: Seq<UserLog>) -> Seq<UserLogView> {
    v.map_values(|l: UserLog| l@)
}

/// Logs are kept in the order of their users' names, one per user, each with
/// at least one event.
pub open spec fn logs_wf(logs: Seq<UserLogView>) -> bool {
    &&& forall|i: int, j: int| #![trigger logs[i], logs[j]] 0 <= i < j < logs.len() ==> name_less(logs[i].user, logs[j].user)
    &&& forall|i: int| 0 <= i < logs.len() ==> (#[trigger] logs[i]).events.len() > 0
}

/// The events of this user, if any.
pub open spec fn events_of(logs: Seq<UserLogView>, user: Seq<char>) -> Seq<LoggedEventView> {
    if exists|i: int| 0 <= i < logs.len() && logs[i].user == user {
        logs[choose|i: int| 0 <= i < logs.len() && logs[i].user == user].events
    } else {
        Seq::empty()
    }
}

/// The at most `n` latest of some events, oldest first.
pub open spec fn latest(v: Seq<LoggedEventView>, n: nat) -> Seq<LoggedEventView> {
    if v.len() <= n { v } else { v.subrange(v.len() - n, v.len() as int) }
}

/// How many of a user's events are shown at most.
pub const SHOWN_EVENTS: usize = 100;

/// The state of the user events tab.
#[derive(Debug)]
pub struct UserEventState {
    logs: Vec<UserLog>,
    selected_user: Option<User>,
    time_display_setting: TimeDisplaySetting,
    font_size: u16,
}

/// The mathematical value of a [`UserEventState`].
pub struct UserEventStateView {
    /// The logs, by user name.
    pub logs: Seq<UserLogView>,
    /// The selected user.
    pub selected: Option<Seq<char>>,
    /// How times are shown.
    pub time_display_setting: TimeDisplaySetting,
    /// Font size.
    pub font_size: u16,
}

impl View for UserEventState {
    type V = UserEventStateView;

    closed spec fn view(&self) -> UserEventStateView {
        UserEventStateView {
            logs: log_views(self.logs@),
            selected: match self.selected_user {
                Some(u) => Some(u@),
                None => None,
            },
            time_display_setting: self.time_display_setting,
            font_size: self.font_size,
        }
    }
}

/// A user with how many events they have, as listed: `name (count)`.
pub open spec fn user_and_count(name: Seq<char>, count: nat) -> Seq<char> {
    name + " ("@ + decimal(count) + ")"@
}

impl UserEventState {
    /// The state's invariant.
    pub open spec fn wf(&self) -> bool {
        logs_wf(self@.logs)
    }

    /// No events, nobody selected, absolute times, font size 18.
    pub fn new() -> (s: Self)
        ensures
            s.wf(),
            s@.logs.len() == 0,
            s@.selected is None,
            s@.time_display_setting == TimeDisplaySetting::Absolute,
            s@.font_size == 18,
    {
        let s = UserEventState {
            logs: Vec::new(),
            selected_user: None,
            time_display_setting: TimeDisplaySetting::Absolute,
            font_size: 18,
        };
        proof {
            assert(log_views(s.logs@) =~= Seq::<UserLogView>::empty());
        }
        s
    }

    /// The users with events, in order of their names.
    pub fn users(&self) -> (v: Vec<User>)
        ensures
            v@.len() == self@.logs.len(),
            forall|i: int| 0 <= i < v@.len() ==> (#[trigger] v@[i])@ == self@.logs[i].user,
    {
        let mut v: Vec<User> = Vec::new();
        let mut i: usize = 0;
        while i < self.logs.len()
            invariant
                i <= self.logs@.len(),
                v@.len() == i,
                forall|k: int| 0 <= k < i ==> (#[trigger] v@[k])@ == self@.logs[k].user,
            decreases self.logs@.len() - i,
        {
            v.push(self.logs[i].user.duplicate());
            i += 1;
        }
        v
    }

    /// Where the log of this user is, if there is one.
    fn position(&self, user: &User) -> (p: Option<usize>)
        requires
            self.wf(),
        ensures
            match p {
                Some(i) => i < self@.logs.len() && self@.logs[i as int].user == user@,
                None => forall|i: int| 0 <= i < self@.logs.len() ==> self@.logs[i].user != user@,
            },
    {
        let mut i: usize = 0;
        while i < self.logs.len()
            invariant
                i <= self.logs@.len(),
                forall|k: int| 0 <= k < i ==> self@.logs[k].user != user@,
            decreases self.logs@.len() - i,
        {
            if self.logs[i].user.same_as(user) {
                return Some(i);
            }
            i += 1;
        }
        None
    }

    /// How many events this user has.
    pub fn num_user_events(&self, user: &User) -> (n: usize)
        requires
            self.wf(),
        ensures
            n == events_of(self@.logs, user@).len(),
    {
        match self.position(user) {
            Some(i) => {
                proof {
                    let k = choose|k: int| 0 <= k < self@.logs.len() && self@.logs[k].user == user@;
                    if k != i {
                        lemma_name_trichotomy(self@.logs[k].user, self@.logs[i as int].user);
                        if k < i {
                            assert(name_less(self@.logs[k].user, self@.logs[i as int].user));
                        } else {
                            assert(name_less(self@.logs[i as int].user, self@.logs[k].user));
                        }
                    }
                }
                self.logs[i].events.len()
            },
            None => 0,
        }
    }

    /// The user and their number of events, as listed.
    pub fn user_and_num_events(&self, user: &User) -> (s: String)
        requires
            self.wf(),
        ensures
            s@ == user_and_count(user@, events_of(self@.logs, user@).len()),
    {
        proof {
            reveal_strlit(" (");
            reveal_strlit(")");
        }
        let n = self.num_user_events(user);
        let mut s = user.display();
        s.append(" (");
        let t = decimal_string(n);
        s.append(t.as_str());
        s.append(")");
        s
    }

    /// The latest events (at most 100) of the selected user, oldest first.
    pub fn events(&self) -> (v: Vec<LoggedEvent>)
        requires
            self.wf(),
        ensures
            logged_views(v@) == (match self@.selected {
                Some(u) => latest(events_of(self@.logs, u), SHOWN_EVENTS as nat),
                None => Seq::empty(),
            }),
    {
        let mut v: Vec<LoggedEvent> = Vec::new();
        match &self.selected_user {
            None => {
                proof { assert(logged_views(v@) =~= Seq::<LoggedEventView>::empty()); }
                v
            },
            Some(user) => {
                match self.position(user) {
                    None => {
                        proof { assert(logged_views(v@) =~= Seq::<LoggedEventView>::empty()); }
                        v
                    },
                    Some(p) => {
                        let ghost all = self@.logs[p as int].events;
                        proof {
                            let k = choose|k: int| 0 <= k < self@.logs.len() && self@.logs[k].user == user@;
                            if k != p {
                                lemma_name_trichotomy(self@.logs[k].user, self@.logs[p as int].user);
                                if k < p {
                                    assert(name_less(self@.logs[k].user, self@.logs[p as int].user));
                                } else {
                                    assert(name_less(self@.logs[p as int].user, self@.logs[k].user));
                                }
                            }
                            assert(events_of(self@.logs, user@) == all);
                        }
                        let evs = &self.logs[p].events;
                        let n = evs.len();
                        let start: usize = if n <= SHOWN_EVENTS { 0 } else { n - SHOWN_EVENTS };
                        let mut i = start;
                        while i < n
                            invariant
                                start <= i <= n,
                                n == evs@.len(),
                                all == logged_views(evs@),
                                logged_views(v@) =~= all.subrange(start as int, i as int),
                            decreases n - i,
                        {
                            let ghost before = v@;
                            let e = LoggedEvent { event: evs[i].event.duplicate(), timestamp: evs[i].timestamp };
                            v.push(e);
                            proof {
                                assert(logged_views(v@) =~= logged_views(before).push(all[i as int]));
                            }
                            i += 1;
                        }
                        v
                    },
                }
            },
        }
    }

    /// When the user's first event happened, if they have any.
    pub fn first_event(&self, user: &User) -> (t: Option<Timestamp>)
        requires
            self.wf(),
        ensures
            match t {
                Some(t) => events_of(self@.logs, user@).len() > 0 && t == events_of(self@.logs, user@)[0].timestamp,
                None => events_of(self@.logs, user@).len() == 0,
            },
    {
        match self.position(user) {
            Some(i) => {
                proof {
                    let k = choose|k: int| 0 <= k < self@.logs.len() && self@.logs[k].user == user@;
                    if k != i {
                        lemma_name_trichotomy(self@.logs[k].user, self@.logs[i as int].user);
                        if k < i {
                            assert(name_less(self@.logs[k].user, self@.logs[i as int].user));
                        } else {
                            assert(name_less(self@.logs[i as int].user, self@.logs[k].user));
                        }
                    }
                    assert(self@.logs[i as int].events.len() > 0);
                }
                Some(self.logs[i].events[0].timestamp)
            },
            None => None,
        }
    }

    /// Select a user whose events are shown.
    pub fn select_user(&mut self, user: User)
        ensures
            final(self)@ == (UserEventStateView { selected: Some(user@), ..old(self)@ }),
    {
        self.selected_user = Some(user);
    }

    /// Choose how times are shown.
    pub fn set_time_display_setting(&mut self, to: TimeDisplaySetting)
        ensures
            final(self)@ == (UserEventStateView { time_display_setting: to, ..old(self)@ }),
    {
        self.time_display_setting = to;
    }

    /// Choose the font size.
    pub fn set_font_size(&mut self, size: u16)
        ensures
            final(self)@ == (UserEventStateView { font_size: size, ..old(self)@ }),
    {
        self.font_size = size;
    }

    /// How times are shown.
    pub fn time_display_setting(&self) -> (s: TimeDisplaySetting)
        ensures
            s == self@.time_display_setting,
    {
        self.time_display_setting
    }

    /// The font size.
    pub fn font_size(&self) -> (s: u16)
        ensures
            s == self@.font_size,
    {
        self.font_size
    }

    /// Record a user's event: it is appended to their log, which is made, in
    /// the order of names, when it is their first.
    pub fn record(&mut self, user_event: UserEvent, timestamp: Timestamp)
        requires
            old(self).wf(),
        ensures
            final(self).wf(),
            final(self)@.selected == old(self)@.selected,
            final(self)@.time_display_setting == old(self)@.time_display_setting,
            final(self)@.font_size == old(self)@.font_size,
            forall|u: Seq<char>| #[trigger] events_of(final(self)@.logs, u) == if u == user_event.user@ {
                events_of(old(self)@.logs, u).push(LoggedEventView { event: user_event.event@, timestamp })
            } else {
                events_of(old(self)@.logs, u)
            },
    {
        let ghost old_logs = self@.logs;
        let ghost name = user_event.user@;
        let ghost added = LoggedEventView { event: user_event.event@, timestamp };
        let UserEvent { user, event } = user_event;
        let mut p: usize = 0;
        let mut found = false;
        loop
            invariant_except_break
                !found,
            invariant
                p <= self.logs@.len(),
                old_logs == self@.logs,
                logs_wf(old_logs),
                name == user@,
                forall|k: int| 0 <= k < p ==> name_less(#[trigger] old_logs[k].user, name),
            ensures
                p <= old_logs.len(),
                old_logs == self@.logs,
                forall|k: int| 0 <= k < p ==> name_less(#[trigger] old_logs[k].user, name),
                found ==> p < old_logs.len() && old_logs[p as int].user == name,
                !found ==> p == old_logs.len() || (old_logs[p as int].user != name && !name_less(old_logs[p as int].user, name)),
            decreases self.logs@.len() - p,
        {
            if p >= self.logs.len() {
                break;
            }
            if self.logs[p].user.same_as(&user) {
                found = true;
                break;
            }
            let here: &String = &self.logs[p].user.name;
            let mine: &String = &user.name;
            if !bytes_before(here.as_str().as_bytes(), mine.as_str().as_bytes()) {
                break;
            }
            p += 1;
        }
        if found {
            let ghost before = self.logs@[p as int].events@;
            self.logs[p].events.push(LoggedEvent { event, timestamp });
            proof {
                let n = self@.logs;
                assert(logged_views(self.logs@[p as int].events@) =~= logged_views(before).push(added));
                assert(n =~= old_logs.update(p as int, UserLogView { user: name, events: old_logs[p as int].events.push(added) }));
                assert forall|i: int, j: int| #![trigger n[i], n[j]] 0 <= i < j < n.len() implies name_less(n[i].user, n[j].user) by {
                    assert(n[i].user == old_logs[i].user);
                    assert(n[j].user == old_logs[j].user);
                }
                assert forall|i: int| 0 <= i < n.len() implies (#[trigger] n[i]).events.len() > 0 by {
                    if i != p {
                        assert(n[i] == old_logs[i]);
                    }
                }
                assert forall|u: Seq<char>| #[trigger] events_of(n, u) == if u == name {
                    events_of(old_logs, u).push(added)
                } else {
                    events_of(old_logs, u)
                } by {
                    if u == name {
                        lemma_events_of(n, p as int);
                        lemma_events_of(old_logs, p as int);
                    } else if exists|k: int| 0 <= k < n.len() && n[k].user == u {
                        let k = choose|k: int| 0 <= k < n.len() && n[k].user == u;
                        assert(k != p);
                        assert(old_logs[k] == n[k]);
                        lemma_events_of(n, k);
                        lemma_events_of(old_logs, k);
                    } else {
                        assert forall|k: int| 0 <= k < old_logs.len() implies old_logs[k].user != u by {
                            assert(n[k].user == old_logs[k].user);
                        }
                    }
                }
            }
        } else {
            let mut events: Vec<LoggedEvent> = Vec::new();
            events.push(LoggedEvent { event, timestamp });
            let log = UserLog { user, events };
            proof {
                assert(logged_views(log.events@) =~= seq![added]);
                if p < old_logs.len() {
                    lemma_name_trichotomy(old_logs[p as int].user, name);
                    assert(name_less(name, old_logs[p as int].user));
                }
            }
            self.logs.insert(p, log);
            proof {
                let n = self@.logs;
                let entry = UserLogView { user: name, events: seq![added] };
                assert(n =~= old_logs.insert(p as int, entry));
                assert forall|k: int| p < k < old_logs.len() implies name_less(name, #[trigger] old_logs[k].user) by {
                    assert(name_less(old_logs[p as int].user, old_logs[k].user));
                    lemma_bytes_transitive(
                        vstd::utf8::encode_utf8(name),
                        vstd::utf8::encode_utf8(old_logs[p as int].user),
                        vstd::utf8::encode_utf8(old_logs[k].user),
                    );
                }
                assert forall|i: int, j: int| #![trigger n[i], n[j]] 0 <= i < j < n.len() implies name_less(n[i].user, n[j].user) by {
                    if j < p {
                        assert(n[i] == old_logs[i] && n[j] == old_logs[j]);
                    } else if j == p {
                        assert(n[i] == old_logs[i]);
                    } else if i < p {
                        assert(n[i] == old_logs[i] && n[j] == old_logs[j - 1]);
                        assert(name_less(old_logs[i].user, name));
                        if j - 1 > p {
                            assert(name_less(name, old_logs[j - 1].user));
                        }
                        lemma_bytes_transitive(
                            vstd::utf8::encode_utf8(old_logs[i].user),
                            vstd::utf8::encode_utf8(name),
                            vstd::utf8::encode_utf8(old_logs[j - 1].user),
                        );
                    } else if i == p {
                        assert(n[j] == old_logs[j - 1]);
                        if j - 1 > p {
                            assert(name_less(name, old_logs[j - 1].user));
                        }
                    } else {
                        assert(n[i] == old_logs[i - 1] && n[j] == old_logs[j - 1]);
                    }
                }
                assert forall|i: int| 0 <= i < n.len() implies (#[trigger] n[i]).events.len() > 0 by {
                    if i < p {
                        assert(n[i] == old_logs[i]);
                    } else if i > p {
                        assert(n[i] == old_logs[i - 1]);
                    }
                }
                assert forall|k: int| 0 <= k < old_logs.len() implies old_logs[k].user != name by {
                    if k < p {
                        lemma_name_trichotomy(old_logs[k].user, name);
                    } else {
                        if k > p {
                            assert(name_less(name, old_logs[k].user));
                        }
                        lemma_name_trichotomy(name, old_logs[k].user);
                    }
                }
                assert forall|u: Seq<char>| #[trigger] events_of(n, u) == if u == name {
                    events_of(old_logs, u).push(added)
                } else {
                    events_of(old_logs, u)
                } by {
                    if u == name {
                        assert(n[p as int] == entry);
                        lemma_events_of(n, p as int);
                        assert(events_of(old_logs, u) =~= Seq::<LoggedEventView>::empty());
                    } else if exists|k: int| 0 <= k < n.len() && n[k].user == u {
                        let k = choose|k: int| 0 <= k < n.len() && n[k].user == u;
                        assert(k != p);
                        let o = if k < p { k } else { k - 1 };
                        assert(old_logs[o] == n[k]);
                        lemma_events_of(n, k);
                        lemma_events_of(old_logs, o);
                    } else {
                        assert forall|k: int| 0 <= k < old_logs.len() implies old_logs[k].user != u by {
                            let q = if k < p { k } else { k + 1 };
                            assert(n[q] == old_logs[k]);
                        }
                    }
                }
            }
        }
    }
}

/// In well-formed logs, the events of a logged user are those of their log.
proof fn lemma_events_of(logs: Seq<UserLogView>, k: int)
    requires
        logs_wf(logs),
        0 <= k < logs.len(),
    ensures
        events_of(logs, logs[k].user) == logs[k].events,
{
    let u = logs[k].user;
    let c = choose|c: int| 0 <= c < logs.len() && logs[c].user == u;
    if c != k {
        lemma_name_trichotomy(logs[c].user, logs[k].user);
        if c < k {
            assert(name_less(logs[c].user, logs[k].user));
        } else {
            assert(name_less(logs[k].user, logs[c].user));
        }
    }
}

/// What can happen in the user events tab, apart from moving its panes.
#[derive(Debug)]
pub enum UserEventsTabMessage {
    /// How times are shown was changed.
    TimeDisplaySettingChanged(TimeDisplaySetting),
    /// A user was selected.
    UserSelected(User),
    /// A user event arrived, with its time.
    UserEvent((UserEvent, Timestamp)),
    /// The font size was changed.
    FontSizeChanged(u16),
}

impl UserEventState {
    /// Take in what happened in the tab.
    pub fn update(&mut self, message: UserEventsTabMessage)
        requires
            old(self).wf(),
        ensures
            final(self).wf(),
            match message {
                UserEventsTabMessage::TimeDisplaySettingChanged(to) =>
                    final(self)@ == (UserEventStateView { time_display_setting: to, ..old(self)@ }),
                UserEventsTabMessage::UserSelected(user) =>
                    final(self)@ == (UserEventStateView { selected: Some(user@), ..old(self)@ }),
                UserEventsTabMessage::FontSizeChanged(size) =>
                    final(self)@ == (UserEventStateView { font_size: size, ..old(self)@ }),
                UserEventsTabMessage::UserEvent((e, t)) => {
                    &&& final(self)@.selected == old(self)@.selected
                    &&& final(self)@.time_display_setting == old(self)@.time_display_setting
                    &&& final(self)@.font_size == old(self)@.font_size
                    &&& forall|u: Seq<char>| #[trigger] events_of(final(self)@.logs, u) == if u == e.user@ {
                        events_of(old(self)@.logs, u).push(LoggedEventView { event: e.event@, timestamp: t })
                    } else {
                        events_of(old(self)@.logs, u)
                    }
                },
            },
    {
        match message {
            UserEventsTabMessage::TimeDisplaySettingChanged(to) => self.set_time_display_setting(to),
            UserEventsTabMessage::UserSelected(user) => self.select_user(user),
            UserEventsTabMessage::FontSizeChanged(size) => self.set_font_size(size),
            UserEventsTabMessage::UserEvent((e, t)) => self.record(e, t),
        }
    }
}

/// Two decimal digits, zero padded.
pub open spec fn two_digits(n: nat) -> Seq<char> {
    seq![crate::text::digit_char(n / 10), crate::text::digit_char(n % 10)]
}

/// Three decimal digits, zero padded.
pub open spec fn three_digits(n: nat) -> Seq<char> {
    seq![crate::text::digit_char(n / 100), crate::text::digit_char((n / 10) % 10), crate::text::digit_char(n % 10)]
}

/// The time of day (UTC) of a timestamp as `HH:MM:SS.mmm`, which is how
/// `chrono` formats it with `%H:%M:%S%.3f`: a leap second (nanoseconds of a
/// second or more) shows as second 60, and milliseconds are truncated.
pub open spec fn time_of_day_text(t: Timestamp) -> Seq<char> {
    let day_secs = (t.secs as int) % 86400;
    let leap: int = if t.nanos >= 1_000_000_000 { 1 } else { 0 };
    two_digits((day_secs / 3600) as nat) + ":"@ + two_digits(((day_secs % 3600) / 60) as nat) + ":"@
        + two_digits((day_secs % 60 + leap) as nat) + "."@
        + three_digits((((t.nanos as int) % 1_000_000_000) / 1_000_000) as nat)
}

fn digit(d: u32) -> (s: &'static str)
    requires
        d < 10,
    ensures
        s@ == seq![crate::text::digit_char(d as nat)],
{
    if d == 0 { proof { reveal_strlit("0"); } "0" }
    else if d == 1 { proof { reveal_strlit("1"); } "1" }
    else if d == 2 { proof { reveal_strlit("2"); } "2" }
    else if d == 3 { proof { reveal_strlit("3"); } "3" }
    else if d == 4 { proof { reveal_strlit("4"); } "4" }
    else if d == 5 { proof { reveal_strlit("5"); } "5" }
    else if d == 6 { proof { reveal_strlit("6"); } "6" }
    else if d == 7 { proof { reveal_strlit("7"); } "7" }
    else if d == 8 { proof { reveal_strlit("8"); } "8" }
    else { proof { reveal_strlit("9"); } "9" }
}

fn push_two_digits(s: &mut String, n: u32)
    requires
        n < 100,
    ensures
        final(s)@ == old(s)@ + two_digits(n as nat),
{
    s.append(digit(n / 10));
    s.append(digit(n % 10));
}

/// The time of day (UTC) of an event, as shown next to it: `HH:MM:SS.mmm`.
pub fn human_readable_absolute(t: &Timestamp) -> (s: String)
    ensures
        s@ == time_of_day_text(*t),
{
    proof {
        reveal_strlit(":");
        reveal_strlit(".");
    }
    let r: i64 = t.secs % 86400;
    let day_secs: i64 = if r < 0 { r + 86400 } else { r };
    proof {
        assert(day_secs == (t.secs as int) % 86400);
    }
    let leap: i64 = if t.nanos >= 1_000_000_000 { 1 } else { 0 };
    let hours = (day_secs / 3600) as u32;
    let minutes = ((day_secs % 3600) / 60) as u32;
    let seconds = (day_secs % 60 + leap) as u32;
    let millis = (t.nanos % 1_000_000_000) / 1_000_000;
    let mut s = String::new();
    push_two_digits(&mut s, hours);
    s.append(":");
    push_two_digits(&mut s, minutes);
    s.append(":");
    push_two_digits(&mut s, seconds);
    s.append(".");
    s.append(digit(millis / 100));
    s.append(digit((millis / 10) % 10));
    s.append(digit(millis % 10));
    s
}

/// The text without a leading `+`, if it has one.
pub open spec fn unsigned_part(s: Seq<char>) -> Seq<char> {
    if s.len() > 0 && s[0] == '+' { s.drop_first() } else { s }
}

/// Whether every character is a decimal digit.
pub open spec fn all_digits(d: Seq<char>) -> bool {
    forall|i: int| 0 <= i < d.len() ==> '0' <= #[trigger] d[i] && d[i] <= '9'
}

/// The port number a text names, as `u16`'s `FromStr` reads it: an optional
/// `+`, then one or more decimal digits, worth at most 65535.
pub open spec fn port_text_value(s: Seq<char>) -> Option<nat> {
    let digits = unsigned_part(s);
    if digits.len() > 0 && all_digits(digits) && digits_value(digits) <= 65535 {
        Some(digits_value(digits))
    } else {
        None
    }
}

/// The value of decimal digits.
pub open spec fn digits_value(d: Seq<char>) -> nat
    decreases d.len(),
{
    if d.len() == 0 {
        0
    } else {
        digits_value(d.drop_last()) * 10 + ((d.last() as u32) - ('0' as u32)) as nat
    }
}

/// The port a text names, if it is one.
pub fn parse_port(s: &str) -> (port: Option<u16>)
    ensures
        match port {
            Some(p) => port_text_value(s@) == Some(p as nat),
            None => port_text_value(s@) is None,
        },
{
    let n = s.unicode_len();
    let start: usize = if n > 0 && s.get_char(0) == '+' { 1 } else { 0 };
    let ghost digits = unsigned_part(s@);
    proof {
        assert(digits =~= s@.subrange(start as int, n as int));
    }
    if start == n {
        return None;
    }
    let mut value: u32 = 0;
    let mut i = start;
    while i < n
        invariant
            start <= i <= n,
            n == s@.len(),
            digits =~= s@.subrange(start as int, n as int),
            digits == unsigned_part(s@),
            forall|k: int| start <= k < i ==> '0' <= #[trigger] s@[k] && s@[k] <= '9',
            value == digits_value(s@.subrange(start as int, i as int)),
            value <= 65535,
        decreases n - i,
    {
        let c = s.get_char(i);
        if c < '0' || c > '9' {
            proof {
                assert(digits[i - start] == c);
                assert(!('0' <= digits[i - start] && digits[i - start] <= '9'));
                assert(!all_digits(digits));
            }
            return None;
        }
        let d = (c as u32) - ('0' as u32);
        proof {
            let next = s@.subrange(start as int, i + 1);
            assert(next.drop_last() =~= s@.subrange(start as int, i as int));
            assert(next.last() == c);
        }
        if value > 6553 || (value == 6553 && d > 5) {
            proof {
                let next = s@.subrange(start as int, i + 1);
                assert(digits_value(next) > 65535);
                assert(digits.subrange(0, i + 1 - start) =~= next);
                if all_digits(digits) {
                    lemma_digits_value_grows(digits, i + 1 - start);
                }
            }
            return None;
        }
        value = value * 10 + d;
        i += 1;
    }
    proof {
        assert(s@.subrange(start as int, n as int) =~= digits);
        assert forall|k: int| 0 <= k < digits.len() implies '0' <= #[trigger] digits[k] && digits[k] <= '9' by {
            assert(digits[k] == s@[start + k]);
        }
        assert(all_digits(digits));
    }
    Some(value as u16)
}

/// Adding digits never makes a value smaller.
proof fn lemma_digits_value_grows(d: Seq<char>, k: int)
    requires
        0 <= k <= d.len(),
        all_digits(d),
    ensures
        digits_value(d.subrange(0, k)) <= digits_value(d),
    decreases d.len() - k,
{
    if k < d.len() {
        lemma_digits_value_grows(d, k + 1);
        let next = d.subrange(0, k + 1);
        assert(next.drop_last() =~= d.subrange(0, k));
        assert(next.last() == d[k]);
    } else {
        assert(d.subrange(0, k) =~= d);
    }
}

/// The server connection form.
#[derive(Debug)]
pub struct ServerConnectState {
    /// The address typed, if any.
    pub ip: Option<String>,
    /// Whether it is an IP address.
    pub ip_valid: bool,
    /// The port typed, if any.
    pub port: Option<String>,
    /// Whether it is a port number.
    pub port_valid: bool,
}

impl ServerConnectState {
    /// An empty form.
    pub fn new() -> (s: Self)
        ensures
            s.ip is None,
            !s.ip_valid,
            s.port is None,
            !s.port_valid,
    {
        ServerConnectState { ip: None, ip_valid: false, port: None, port_valid: false }
    }

    /// Type an address; `reads_as_address` says whether it reads as an IP
    /// address (the standard library's `IpAddr` parser decides that, outside
    /// this library).
    pub fn set_ip(&mut self, ip: Option<String>, reads_as_address: bool)
        ensures
            final(self).ip == ip,
            final(self).ip_valid == (ip is Some && reads_as_address),
            final(self).port == old(self).port,
            final(self).port_valid == old(self).port_valid,
    {
        self.ip_valid = match &ip {
            Some(_) => reads_as_address,
            None => false,
        };
        self.ip = ip;
    }

    /// Type a port; it is valid when it reads as a port number.
    pub fn set_port(&mut self, port: Option<String>)
        ensures
            final(self).port == port,
            final(self).port_valid == (match port {
                Some(t) => port_text_value(t@) is Some,
                None => false,
            }),
            final(self).ip == old(self).ip,
            final(self).ip_valid == old(self).ip_valid,
    {
        self.port_valid = match &port {
            Some(t) => parse_port(t.as_str()).is_some(),
            None => false,
        };
        self.port = port;
    }

    /// Whether both the address and the port are valid.
    pub fn port_id_valid(&self) -> (b: bool)
        ensures
            b == (self.ip_valid && self.port_valid),
    {
        self.ip_valid && self.port_valid
    }
}

} // verus!
