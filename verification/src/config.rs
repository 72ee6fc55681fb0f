use vstd::prelude::*;

use crate::endpoint::{EndpointId, EndpointIdView, Labels, debug_endpoint_id, debug_labels};
use crate::error::{Error, ErrorView};
use crate::text::{decimal, decimal_string, join_comma, join_with_commas, owned, string_views};

verus! {

/// An endpoint as described by a configuration file.
#[derive(Debug)]
pub struct ConfigEndpoint {
    /// The path to the endpoint. Likely "/dev/ttyACMx" or "COMx".
    pub id: EndpointId,
    /// Labels for this endpoint.
    pub labels: Labels,
}

/// The mathematical value of a [`ConfigEndpoint`].
pub struct ConfigEndpointView {
    /// The endpoint.
    pub id: EndpointIdView,
    /// Its labels.
    pub labels: Seq<Seq<char>>,
}

impl View for ConfigEndpoint {
    type V = ConfigEndpointView;

    open spec fn view(&self) -> ConfigEndpointView {
        ConfigEndpointView { id: self.id@, labels: self.labels@ }
    }
}

/// A group of endpoints, identified by their ids.
/// These endpoints will be allocated together:
/// controlling one of them allows control of all of them.
///
/// Groups must uphold some invariants (validated at runtime):
///     - The endpoints must be uniquely found in a single group.
///     - A group is non-empty.
///     - A group only has members of the same variant.
#[derive(Debug)]
pub struct Group {
    /// The label(s) for the group. Will propagate to each endpoint.
    pub labels: Labels,
    /// The endpoints which are members of this group.
    pub endpoints: Vec<ConfigEndpoint>,
}

/// The mathematical value of a [`Group`].
pub struct GroupView {
    /// The group's labels.
    pub labels: Seq<Seq<char>>,
    /// Its members.
    pub endpoints: Seq<ConfigEndpointView>,
}

/// The views of config endpoints.
pub open spec fn config_endpoint_views(v: Seq<ConfigEndpoint>) -> Seq<ConfigEndpointView> {
    v.map_values(|e: ConfigEndpoint| e@)
}

impl View for Group {
    type V = GroupView;

    open spec fn view(&self) -> GroupView {
        GroupView { labels: self.labels@, endpoints: config_endpoint_views(self.endpoints@) }
    }
}

/// The configuration used for running the server.
#[derive(Debug)]
pub struct Config {
    /// The endpoints the server should set up when starting.
    pub endpoints: Vec<ConfigEndpoint>,
    /// Logical groupings of endpoints. See [`Group`].
    pub groups: Vec<Group>,
    /// Should all found serial ports be opened automatically?
    pub auto_open_serial_ports: bool,
}

/// The mathematical value of a [`Config`].
pub struct ConfigView {
    /// The stand-alone endpoints.
    pub endpoints: Seq<ConfigEndpointView>,
    /// The groups.
    pub groups: Seq<GroupView>,
    /// Whether found serial ports are opened automatically.
    pub auto_open_serial_ports: bool,
}

/// The views of groups.
pub open spec fn group_views(v: Seq<Group>) -> Seq<GroupView> {
    v.map_values(|g: Group| g@)
}

impl View for Config {
    type V = ConfigView;

    open spec fn view(&self) -> ConfigView {
        ConfigView {
            endpoints: config_endpoint_views(self.endpoints@),
            groups: group_views(self.groups@),
            auto_open_serial_ports: self.auto_open_serial_ports,
        }
    }
}

/// The ids of the members of a group, in order.
pub open spec fn member_ids(g: GroupView) -> Seq<EndpointIdView> {
    g.endpoints.map_values(|e: ConfigEndpointView| e.id)
}

/// The ids of the members of all groups, group after group.
pub open spec fn group_ids(gs: Seq<GroupView>) -> Seq<EndpointIdView>
    decreases gs.len(),
{
    if gs.len() == 0 {
        Seq::empty()
    } else {
        group_ids(gs.drop_last()) + member_ids(gs.last())
    }
}

/// How often `e` occurs in `s`.
pub open spec fn occurrences<E>(s: Seq<E>, e: E) -> nat
    decreases s.len(),
{
    if s.len() == 0 {
        0
    } else {
        occurrences(s.drop_last(), e) + if s.last() == e { 1nat } else { 0nat }
    }
}

/// The elements of `s` that occur more than once, each once,
/// in the order in which their second occurrence appears.
pub open spec fn duplicates<E>(s: Seq<E>) -> Seq<E>
    decreases s.len(),
{
    if s.len() == 0 {
        Seq::empty()
    } else if occurrences(s.drop_last(), s.last()) == 1 {
        duplicates(s.drop_last()).push(s.last())
    } else {
        duplicates(s.drop_last())
    }
}

/// Whether a group has both mock and tty members.
pub open spec fn group_is_mixed(g: GroupView) -> bool {
    &&& exists|i: int| 0 <= i < g.endpoints.len() && (#[trigger] g.endpoints[i]).id is Mock
    &&& exists|j: int| 0 <= j < g.endpoints.len() && (#[trigger] g.endpoints[j]).id is Tty
}

/// A configuration is valid when no group is empty, no group mixes variants,
/// and no endpoint is shared between groups.
pub open spec fn config_valid(c: ConfigView) -> bool {
    &&& forall|i: int| 0 <= i < c.groups.len() ==> (#[trigger] c.groups[i]).endpoints.len() > 0
    &&& forall|i: int| 0 <= i < c.groups.len() ==> !group_is_mixed(#[trigger] c.groups[i])
    &&& duplicates(group_ids(c.groups)).len() == 0
}

/// The message for an empty group.
pub open spec fn empty_group_message(index: nat) -> Seq<char> {
    "The group with index "@ + decimal(index)
        + " (zero indexed) is empty. If defining groups, please put entries into it."@
}

/// How a config endpoint is shown for debugging.
pub open spec fn debug_config_endpoint(e: ConfigEndpointView) -> Seq<char> {
    "ConfigEndpoint { id: "@ + debug_endpoint_id(e.id) + ", labels: "@ + debug_labels(e.labels) + " }"@
}

/// How a group is shown for debugging.
pub open spec fn debug_group(g: GroupView) -> Seq<char> {
    "Group { labels: "@ + debug_labels(g.labels) + ", endpoints: ["@
        + join_comma(g.endpoints.map_values(|e: ConfigEndpointView| debug_config_endpoint(e))) + "] }"@
}

/// The message for a group mixing variants.
pub open spec fn mixed_group_message(index: nat, g: GroupView) -> Seq<char> {
    "The group with index "@ + decimal(index)
        + " (zero indexed) has endpoints of different variants, please only put the same endpoint variant type within the same group. The problematic group: `"@
        + debug_group(g) + "`."@
}

/// The message for endpoints shared between groups.
pub open spec fn duplicates_message(dups: Seq<EndpointIdView>) -> Seq<char> {
    "Groups represent controllable units. This breaks if endpoints are shared across groups. Duplicates: ["@
        + join_comma(dups.map_values(|d: EndpointIdView| debug_endpoint_id(d))) + "]"@
}

impl ConfigEndpoint {
    /// An endpoint without labels.
    pub fn from_id(id: EndpointId) -> (e: Self)
        ensures
            e@ == (ConfigEndpointView { id: id@, labels: Seq::empty() }),
    {
        ConfigEndpoint { id, labels: Labels::new() }
    }

    /// A copy.
    pub fn duplicate(&self) -> (e: Self)
        ensures
            e@ == self@,
    {
        ConfigEndpoint { id: self.id.duplicate(), labels: self.labels.duplicate() }
    }

    /// As shown for debugging.
    pub fn debug(&self) -> (s: String)
        ensures
            s@ == debug_config_endpoint(self@),
    {
        proof {
            reveal_strlit("ConfigEndpoint { id: ");
            reveal_strlit(", labels: ");
            reveal_strlit(" }");
        }
        let mut s = owned("ConfigEndpoint { id: ");
        let id = self.id.debug();
        s.append(id.as_str());
        s.append(", labels: ");
        let ls = self.labels.debug();
        s.append(ls.as_str());
        s.append(" }");
        s
    }
}

fn endpoints_from_ids(ids: Vec<EndpointId>) -> (v: Vec<ConfigEndpoint>)
    ensures
        config_endpoint_views(v@) == ids@.map_values(|id: EndpointId| ConfigEndpointView { id: id@, labels: Seq::empty() }),
{
    let mut v: Vec<ConfigEndpoint> = Vec::new();
    let mut i: usize = 0;
    while i < ids.len()
        invariant
            i <= ids@.len(),
            config_endpoint_views(v@) == ids@.subrange(0, i as int).map_values(|id: EndpointId| ConfigEndpointView { id: id@, labels: Seq::empty() }),
        decreases ids@.len() - i,
    {
        let ghost before = v@;
        v.push(ConfigEndpoint::from_id(ids[i].duplicate()));
        proof {
            assert(ids@.subrange(0, i + 1) =~= ids@.subrange(0, i as int).push(ids@[i as int]));
            assert(config_endpoint_views(v@) =~= config_endpoint_views(before).push(ConfigEndpointView { id: ids@[i as int]@, labels: Seq::empty() }));
            assert(config_endpoint_views(v@) =~= ids@.subrange(0, i + 1).map_values(|id: EndpointId| ConfigEndpointView { id: id@, labels: Seq::empty() }));
        }
        i += 1;
    }
    proof {
        assert(ids@.subrange(0, ids@.len() as int) =~= ids@);
    }
    v
}

impl Group {
    /// A group of endpoints without labels.
    pub fn new(endpoints: Vec<EndpointId>) -> (g: Self)
        ensures
            g@.labels == Seq::<Seq<char>>::empty(),
            g@.endpoints == endpoints@.map_values(|id: EndpointId| ConfigEndpointView { id: id@, labels: Seq::empty() }),
    {
        Group { labels: Labels::new(), endpoints: endpoints_from_ids(endpoints) }
    }

    /// Make a group where the group itself has some label.
    pub fn new_with_labels(labels: &[&str], endpoints: Vec<EndpointId>) -> (g: Self)
        ensures
            g@.labels == labels@.map_values(|s: &str| s@),
            g@.endpoints == endpoints@.map_values(|id: EndpointId| ConfigEndpointView { id: id@, labels: Seq::empty() }),
    {
        Group { labels: Labels::from_strs(labels), endpoints: endpoints_from_ids(endpoints) }
    }

    /// Whether the group holds mocks, judged by its last member.
    pub fn is_mock_group(&self) -> (b: bool)
        requires
            self@.endpoints.len() > 0,
        ensures
            b == (self@.endpoints.last().id is Mock),
    {
        let n = self.endpoints.len();
        self.endpoints[n - 1].id.is_mock()
    }

    /// Whether the group has both mock and tty members.
    pub fn is_mixed(&self) -> (b: bool)
        ensures
            b == group_is_mixed(self@),
    {
        let mut mocks: usize = 0;
        let mut ttys: usize = 0;
        let mut i: usize = 0;
        while i < self.endpoints.len()
            invariant
                i <= self.endpoints@.len(),
                mocks <= i,
                ttys <= i,
                (mocks > 0) == exists|k: int| 0 <= k < i && (#[trigger] self@.endpoints[k]).id is Mock,
                (ttys > 0) == exists|k: int| 0 <= k < i && (#[trigger] self@.endpoints[k]).id is Tty,
            decreases self.endpoints@.len() - i,
        {
            proof { assert(self@.endpoints[i as int] == self.endpoints@[i as int]@); }
            if self.endpoints[i].id.is_mock() {
                mocks += 1;
            } else {
                ttys += 1;
            }
            i += 1;
        }
        mocks > 0 && ttys > 0
    }

    /// As shown for debugging.
    pub fn debug(&self) -> (s: String)
        ensures
            s@ == debug_group(self@),
    {
        proof {
            reveal_strlit("Group { labels: ");
            reveal_strlit(", endpoints: [");
            reveal_strlit("] }");
        }
        let mut parts: Vec<String> = Vec::new();
        let mut i: usize = 0;
        while i < self.endpoints.len()
            invariant
                i <= self.endpoints@.len(),
                string_views(parts@) == self@.endpoints.subrange(0, i as int).map_values(|e: ConfigEndpointView| debug_config_endpoint(e)),
            decreases self.endpoints@.len() - i,
        {
            let ghost before = parts@;
            parts.push(self.endpoints[i].debug());
            proof {
                assert(self@.endpoints.subrange(0, i + 1) =~= self@.endpoints.subrange(0, i as int).push(self@.endpoints[i as int]));
                assert(string_views(parts@) =~= string_views(before).push(debug_config_endpoint(self@.endpoints[i as int])));
                assert(string_views(parts@) =~= self@.endpoints.subrange(0, i + 1).map_values(|e: ConfigEndpointView| debug_config_endpoint(e)));
            }
            i += 1;
        }
        proof {
            assert(self@.endpoints.subrange(0, self@.endpoints.len() as int) =~= self@.endpoints);
        }
        let mut s = owned("Group { labels: ");
        let ls = self.labels.debug();
        s.append(ls.as_str());
        s.append(", endpoints: [");
        let joined = join_with_commas(&parts);
        s.append(joined.as_str());
        s.append("] }");
        s
    }
}

/// Count how often `id` occurs among the first `upto` ids.
fn count_before(ids: &Vec<EndpointId>, upto: usize, id: &EndpointId) -> (n: usize)
    requires
        upto <= ids@.len(),
    ensures
        n == occurrences(ids@.subrange(0, upto as int).map_values(|x: EndpointId| x@), id@),
{
    let ghost views = ids@.map_values(|x: EndpointId| x@);
    let mut n: usize = 0;
    let mut j: usize = 0;
    while j < upto
        invariant
            j <= upto <= ids@.len(),
            views == ids@.map_values(|x: EndpointId| x@),
            n <= j,
            n == occurrences(ids@.subrange(0, j as int).map_values(|x: EndpointId| x@), id@),
        decreases upto - j,
    {
        proof {
            let next = ids@.subrange(0, j + 1).map_values(|x: EndpointId| x@);
            assert(next.drop_last() =~= ids@.subrange(0, j as int).map_values(|x: EndpointId| x@));
            assert(next.last() == ids@[j as int]@);
        }
        if ids[j].same_as(id) {
            n += 1;
        }
        j += 1;
    }
    n
}

/// The ids occurring more than once, each once, in order of their second occurrence.
pub fn find_duplicates(ids: &Vec<EndpointId>) -> (dups: Vec<EndpointId>)
    ensures
        dups@.map_values(|x: EndpointId| x@) == duplicates(ids@.map_values(|x: EndpointId| x@)),
{
    let mut out: Vec<EndpointId> = Vec::new();
    let mut i: usize = 0;
    while i < ids.len()
        invariant
            i <= ids@.len(),
            out@.map_values(|x: EndpointId| x@) == duplicates(ids@.subrange(0, i as int).map_values(|x: EndpointId| x@)),
        decreases ids@.len() - i,
    {
        let c = count_before(ids, i, &ids[i]);
        let ghost before = out@;
        if c == 1 {
            out.push(ids[i].duplicate());
        }
        proof {
            let next = ids@.subrange(0, i + 1).map_values(|x: EndpointId| x@);
            assert(next.drop_last() =~= ids@.subrange(0, i as int).map_values(|x: EndpointId| x@));
            assert(next.last() == ids@[i as int]@);
            if c == 1 {
                assert(out@.map_values(|x: EndpointId| x@) =~= before.map_values(|x: EndpointId| x@).push(ids@[i as int]@));
            }
        }
        i += 1;
    }
    proof {
        assert(ids@.subrange(0, ids@.len() as int) =~= ids@);
    }
    out
}

/// A member of an example group: an endpoint without labels of its own.
pub open spec fn plain_member(id: EndpointIdView) -> ConfigEndpointView {
    ConfigEndpointView { id, labels: Seq::empty() }
}

/// The example group of three COM ports, without labels.
pub open spec fn example_tty_group() -> GroupView {
    GroupView {
        labels: Seq::empty(),
        endpoints: seq![
            plain_member(EndpointIdView::Tty("COM0"@)),
            plain_member(EndpointIdView::Tty("COM1"@)),
            plain_member(EndpointIdView::Tty("COM2"@)),
        ],
    }
}

/// The example group of three mocks, labelled `mocks`.
pub open spec fn example_mock_group() -> GroupView {
    GroupView {
        labels: seq!["mocks"@],
        endpoints: seq![
            plain_member(EndpointIdView::Mock("/dev/ttyMock"@)),
            plain_member(EndpointIdView::Mock("some-mock"@)),
            plain_member(EndpointIdView::Mock("another-mock"@)),
        ],
    }
}

/// The example configuration: `COM1` labelled `device-type-1`, an unlabelled
/// mock `Mock1`, the two example groups, and serial ports opened automatically.
pub open spec fn example_config() -> ConfigView {
    ConfigView {
        endpoints: seq![
            ConfigEndpointView { id: EndpointIdView::Tty("COM1"@), labels: seq!["device-type-1"@] },
            plain_member(EndpointIdView::Mock("Mock1"@)),
        ],
        groups: seq![example_tty_group(), example_mock_group()],
        auto_open_serial_ports: true,
    }
}

impl Config {
    /// The default configuration: no endpoints, no groups, and serial ports opened automatically.
    pub fn default() -> (c: Self)
        ensures
            c@.endpoints.len() == 0,
            c@.groups.len() == 0,
            c@.auto_open_serial_ports,
    {
        Config { endpoints: Vec::new(), groups: Vec::new(), auto_open_serial_ports: true }
    }

    /// An example configuration with some fields filled in.
    pub fn example() -> (c: Self)
        ensures
            c@ == example_config(),
    {
        let mut g1: Vec<EndpointId> = Vec::new();
        g1.push(EndpointId::tty("COM0"));
        g1.push(EndpointId::tty("COM1"));
        g1.push(EndpointId::tty("COM2"));
        let mut g2: Vec<EndpointId> = Vec::new();
        g2.push(EndpointId::mock("/dev/ttyMock"));
        g2.push(EndpointId::mock("some-mock"));
        g2.push(EndpointId::mock("another-mock"));
        let ghost ids1 = g1@;
        let ghost ids2 = g2@;
        let group_labels: [&str; 1] = ["mocks"];
        let first = Group::new(g1);
        let second = Group::new_with_labels(group_labels.as_slice(), g2);
        let mut groups: Vec<Group> = Vec::new();
        groups.push(first);
        groups.push(second);
        let mut endpoints: Vec<ConfigEndpoint> = Vec::new();
        endpoints.push(ConfigEndpoint { id: EndpointId::tty("COM1"), labels: Labels::from_label("device-type-1") });
        endpoints.push(ConfigEndpoint { id: EndpointId::mock("Mock1"), labels: Labels::new() });
        proof {
            assert(group_labels@.map_values(|s: &str| s@) =~= seq!["mocks"@]);
            assert(ids1.map_values(|id: EndpointId| ConfigEndpointView { id: id@, labels: Seq::empty() })
                =~= example_tty_group().endpoints);
            assert(ids2.map_values(|id: EndpointId| ConfigEndpointView { id: id@, labels: Seq::empty() })
                =~= example_mock_group().endpoints);
            assert(group_views(groups@) =~= seq![example_tty_group(), example_mock_group()]);
            assert(config_endpoint_views(endpoints@) =~= example_config().endpoints);
        }
        Config { endpoints, groups, auto_open_serial_ports: true }
    }

    /// All group member ids, group after group.
    pub fn group_member_ids(&self) -> (ids: Vec<EndpointId>)
        ensures
            ids@.map_values(|x: EndpointId| x@) == group_ids(self@.groups),
    {
        let mut ids: Vec<EndpointId> = Vec::new();
        let mut g: usize = 0;
        while g < self.groups.len()
            invariant
                g <= self.groups@.len(),
                ids@.map_values(|x: EndpointId| x@) == group_ids(self@.groups.subrange(0, g as int)),
            decreases self.groups@.len() - g,
        {
            let group = &self.groups[g];
            let ghost start = ids@.map_values(|x: EndpointId| x@);
            let mut e: usize = 0;
            while e < group.endpoints.len()
                invariant
                    e <= group.endpoints@.len(),
                    group == &self.groups@[g as int],
                    ids@.map_values(|x: EndpointId| x@) == start + member_ids(group@).subrange(0, e as int),
                decreases group.endpoints@.len() - e,
            {
                let ghost before = ids@;
                ids.push(group.endpoints[e].id.duplicate());
                proof {
                    assert(member_ids(group@)[e as int] == group.endpoints@[e as int].id@);
                    assert(ids@.map_values(|x: EndpointId| x@) =~= before.map_values(|x: EndpointId| x@).push(group.endpoints@[e as int].id@));
                    assert(member_ids(group@).subrange(0, e + 1) =~= member_ids(group@).subrange(0, e as int).push(member_ids(group@)[e as int]));
                }
                e += 1;
            }
            proof {
                let next = self@.groups.subrange(0, g + 1);
                assert(next.drop_last() =~= self@.groups.subrange(0, g as int));
                assert(next.last() == group@);
                assert(member_ids(group@).subrange(0, group.endpoints@.len() as int) =~= member_ids(group@));
            }
            g += 1;
        }
        proof {
            assert(self@.groups.subrange(0, self@.groups.len() as int) =~= self@.groups);
        }
        ids
    }

    /// Endpoints must not be shared between groups.
    pub fn check_duplicates_across_groups(&self) -> (r: Result<(), Error>)
        ensures
            r is Ok <==> duplicates(group_ids(self@.groups)).len() == 0,
            r is Err ==> r->Err_0@ == ErrorView::BadConfig(duplicates_message(duplicates(group_ids(self@.groups)))),
    {
        let ids = self.group_member_ids();
        let dups = find_duplicates(&ids);
        if dups.len() == 0 {
            return Ok(());
        }
        let mut parts: Vec<String> = Vec::new();
        let mut i: usize = 0;
        while i < dups.len()
            invariant
                i <= dups@.len(),
                string_views(parts@) == dups@.subrange(0, i as int).map_values(|x: EndpointId| debug_endpoint_id(x@)),
            decreases dups@.len() - i,
        {
            let ghost before = parts@;
            parts.push(dups[i].debug());
            proof {
                assert(string_views(parts@) =~= string_views(before).push(debug_endpoint_id(dups@[i as int]@)));
                assert(dups@.subrange(0, i + 1) =~= dups@.subrange(0, i as int).push(dups@[i as int]));
                assert(string_views(parts@) =~= dups@.subrange(0, i + 1).map_values(|x: EndpointId| debug_endpoint_id(x@)));
            }
            i += 1;
        }
        proof {
            assert(dups@.subrange(0, dups@.len() as int) =~= dups@);
            assert(dups@.map_values(|x: EndpointId| debug_endpoint_id(x@))
                =~= dups@.map_values(|x: EndpointId| x@).map_values(|d: EndpointIdView| debug_endpoint_id(d)));
            reveal_strlit("Groups represent controllable units. This breaks if endpoints are shared across groups. Duplicates: [");
            reveal_strlit("]");
        }
        let mut msg = owned("Groups represent controllable units. This breaks if endpoints are shared across groups. Duplicates: [");
        let joined = join_with_commas(&parts);
        msg.append(joined.as_str());
        msg.append("]");
        Err(Error::BadConfig(msg))
    }

    /// No group may be empty.
    pub fn check_empty_within_group(&self) -> (r: Result<(), Error>)
        ensures
            r is Ok <==> forall|i: int| 0 <= i < self@.groups.len() ==> (#[trigger] self@.groups[i]).endpoints.len() > 0,
            r is Err ==> exists|i: int| 0 <= i < self@.groups.len()
                && (#[trigger] self@.groups[i]).endpoints.len() == 0
                && (forall|j: int| 0 <= j < i ==> (#[trigger] self@.groups[j]).endpoints.len() > 0)
                && r->Err_0@ == ErrorView::BadConfig(empty_group_message(i as nat)),
    {
        let mut i: usize = 0;
        while i < self.groups.len()
            invariant
                i <= self.groups@.len(),
                forall|j: int| 0 <= j < i ==> (#[trigger] self@.groups[j]).endpoints.len() > 0,
            decreases self.groups@.len() - i,
        {
            proof { assert(self@.groups[i as int] == self.groups@[i as int]@); }
            if self.groups[i].endpoints.len() == 0 {
                proof {
                    reveal_strlit("The group with index ");
                    reveal_strlit(" (zero indexed) is empty. If defining groups, please put entries into it.");
                }
                let mut msg = owned("The group with index ");
                let n = decimal_string(i);
                msg.append(n.as_str());
                msg.append(" (zero indexed) is empty. If defining groups, please put entries into it.");
                return Err(Error::BadConfig(msg));
            }
            i += 1;
        }
        Ok(())
    }

    /// No group may mix mock and tty members.
    /// Meeting an empty group before any mixed group is not expected.
    pub fn check_group_variant_homogeneity(&self) -> (r: Result<(), Error>)
        requires
            forall|i: int| 0 <= i < self@.groups.len() && (#[trigger] self@.groups[i]).endpoints.len() == 0
                ==> exists|k: int| 0 <= k < i && group_is_mixed(#[trigger] self@.groups[k]),
        ensures
            r is Ok <==> forall|i: int| 0 <= i < self@.groups.len() ==> !group_is_mixed(#[trigger] self@.groups[i]),
            r is Err ==> exists|i: int| 0 <= i < self@.groups.len()
                && group_is_mixed(#[trigger] self@.groups[i])
                && (forall|j: int| 0 <= j < i ==> !group_is_mixed(#[trigger] self@.groups[j]))
                && r->Err_0@ == ErrorView::BadConfig(mixed_group_message(i as nat, self@.groups[i])),
    {
        let mut i: usize = 0;
        while i < self.groups.len()
            invariant
                i <= self.groups@.len(),
                forall|j: int| 0 <= j < i ==> !group_is_mixed(#[trigger] self@.groups[j]),
            decreases self.groups@.len() - i,
        {
            proof { assert(self@.groups[i as int] == self.groups@[i as int]@); }
            if self.groups[i].is_mixed() {
                proof {
                    reveal_strlit("The group with index ");
                    reveal_strlit(" (zero indexed) has endpoints of different variants, please only put the same endpoint variant type within the same group. The problematic group: `");
                    reveal_strlit("`.");
                }
                let mut msg = owned("The group with index ");
                let n = decimal_string(i);
                msg.append(n.as_str());
                msg.append(" (zero indexed) has endpoints of different variants, please only put the same endpoint variant type within the same group. The problematic group: `");
                let g = self.groups[i].debug();
                msg.append(g.as_str());
                msg.append("`.");
                return Err(Error::BadConfig(msg));
            }
            i += 1;
        }
        Ok(())
    }

    /// Check the configuration: no empty groups, no groups mixing variants,
    /// and no endpoint shared between groups; the first problem found is reported.
    pub fn validate(&self) -> (r: Result<(), Error>)
        ensures
            r is Ok <==> config_valid(self@),
            r is Err ==> r->Err_0@ is BadConfig,
            (exists|i: int| 0 <= i < self@.groups.len() && (#[trigger] self@.groups[i]).endpoints.len() == 0) ==>
                exists|i: int| 0 <= i < self@.groups.len()
                    && (#[trigger] self@.groups[i]).endpoints.len() == 0
                    && (forall|j: int| 0 <= j < i ==> (#[trigger] self@.groups[j]).endpoints.len() > 0)
                    && r == Err::<(), Error>(r->Err_0)
                    && r->Err_0@ == ErrorView::BadConfig(empty_group_message(i as nat)),
            (forall|i: int| 0 <= i < self@.groups.len() ==> (#[trigger] self@.groups[i]).endpoints.len() > 0)
                && (exists|i: int| 0 <= i < self@.groups.len() && group_is_mixed(#[trigger] self@.groups[i])) ==>
                exists|i: int| 0 <= i < self@.groups.len()
                    && group_is_mixed(#[trigger] self@.groups[i])
                    && (forall|j: int| 0 <= j < i ==> !group_is_mixed(#[trigger] self@.groups[j]))
                    && r is Err
                    && r->Err_0@ == ErrorView::BadConfig(mixed_group_message(i as nat, self@.groups[i])),
            (forall|i: int| 0 <= i < self@.groups.len() ==> (#[trigger] self@.groups[i]).endpoints.len() > 0)
                && (forall|i: int| 0 <= i < self@.groups.len() ==> !group_is_mixed(#[trigger] self@.groups[i]))
                && duplicates(group_ids(self@.groups)).len() > 0 ==>
                r is Err && r->Err_0@ == ErrorView::BadConfig(duplicates_message(duplicates(group_ids(self@.groups)))),
    {
        let r1 = self.check_empty_within_group();
        if r1.is_err() {
            return r1;
        }
        let r2 = self.check_group_variant_homogeneity();
        if r2.is_err() {
            return r2;
        }
        self.check_duplicates_across_groups()
    }
}

} // verus!
