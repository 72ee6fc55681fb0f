use vstd::prelude::*;

use crate::endpoint::{EndpointEvent, EndpointEventView, Label, Labels, opt_labels_view};
use crate::serial::{from_utf8_lossy, lossy_utf8};
use crate::text::owned;
use crate::user::User;

verus! {

/// The identity of a mock endpoint: the user who owns it and its name.
/// Mocks of different users are different endpoints, even when named alike.
#[derive(Debug, Hash)]
pub struct MockId {
    /// The owning user.
    pub user: User,
    /// The mock's name.
    pub name: String,
}

/// The mathematical value of a [`MockId`].
pub struct MockIdView {
    /// The owning user's name.
    pub user: Seq<char>,
    /// The mock's name.
    pub name: Seq<char>,
}

impl View for MockId {
    type V = MockIdView;

    open spec fn view(&self) -> MockIdView {
        MockIdView { user: self.user@, name: self.name@ }
    }
}

/// How a mock id is shown: `user:name`.
pub open spec fn display_mock_id(m: MockIdView) -> Seq<char> {
    m.user + ":"@ + m.name
}

impl MockId {
    /// A mock named `name` owned by `user`.
    pub fn new(user: &str, name: &str) -> (m: Self)
        ensures
            m@ == (MockIdView { user: user@, name: name@ }),
    {
        MockId { user: User::new(user), name: owned(name) }
    }

    /// A copy.
    pub fn duplicate(&self) -> (m: Self)
        ensures
            m@ == self@,
    {
        MockId { user: self.user.duplicate(), name: self.name.clone() }
    }

    /// Whether two ids are equal: same user and same name.
    pub fn same_as(&self, other: &MockId) -> (same: bool)
        ensures
            same == (self@ == other@),
    {
        self.user.same_as(&other.user) && self.name == other.name
    }

    /// As shown to people.
    pub fn display(&self) -> (s: String)
        ensures
            s@ == display_mock_id(self@),
    {
        proof { reveal_strlit(":"); }
        let mut s = self.user.display();
        s.append(":");
        s.append(self.name.as_str());
        s
    }
}

impl Clone for MockId {
    fn clone(&self) -> (m: Self)
        ensures
            m@ == self@,
    {
        self.duplicate()
    }
}

impl PartialEq for MockId {
    fn eq(&self, other: &MockId) -> (same: bool) {
        self.same_as(other)
    }
}

impl vstd::std_specs::cmp::PartialEqSpecImpl for MockId {
    open spec fn obeys_eq_spec() -> bool {
        true
    }

    open spec fn eq_spec(&self, other: &MockId) -> bool {
        self@ == other@
    }
}

impl Eq for MockId {}

/// The end of the line starting at `i`: the first newline at or after `i`,
/// or the end of the text.
pub open spec fn line_end(s: Seq<u8>, i: nat) -> nat
    decreases s.len() - i,
{
    if i >= s.len() || s[i as int] == 10u8 {
        i
    } else {
        line_end(s, i + 1)
    }
}

/// The lines of a text from `i` on, as `str::lines` gives them: split at each
/// newline, a carriage return just before a newline dropped, and no line after
/// a final newline.
pub open spec fn lines_from(s: Seq<u8>, i: nat) -> Seq<Seq<u8>>
    decreases s.len() - i,
{
    if i >= s.len() {
        Seq::empty()
    } else {
        proof {
            lemma_line_end_bounds(s, i);
        }
        let e = line_end(s, i);
        let stop = if e < s.len() && e > i && s[e - 1] == 13u8 { (e - 1) as nat } else { e };
        let rest = if e < s.len() { lines_from(s, e + 1) } else { Seq::empty() };
        seq![s.subrange(i as int, stop as int)] + rest
    }
}

/// For each line, that it went on the wire and came back from it.
pub open spec fn loopback_events(lines: Seq<Seq<u8>>) -> Seq<EndpointEventView>
    decreases lines.len(),
{
    if lines.len() == 0 {
        Seq::empty()
    } else {
        seq![EndpointEventView::ToWire(lines[0]), EndpointEventView::FromWire(lines[0])]
            + loopback_events(lines.drop_first())
    }
}

/// The views of some endpoint events.
pub open spec fn endpoint_event_views(v: Seq<EndpointEvent>) -> Seq<EndpointEventView> {
    v.map_values(|e: EndpointEvent| e@)
}

/// What a mock does with a message put on its wire: the message is read as text
/// (bad UTF-8 replaced), and each of its lines loops back.
pub open spec fn mock_loopback(message: Seq<u8>) -> Seq<EndpointEventView> {
    loopback_events(lines_from(vstd::utf8::encode_utf8(lossy_utf8(message)), 0))
}

/// A line ends at or after its start, and no later than the end of the text.
pub proof fn lemma_line_end_bounds(s: Seq<u8>, i: nat)
    requires
        i <= s.len(),
    ensures
        i <= line_end(s, i) <= s.len(),
    decreases s.len() - i,
{
    if i < s.len() && s[i as int] != 10u8 {
        lemma_line_end_bounds(s, i + 1);
    }
}

proof fn lemma_line_end(s: Seq<u8>, i: nat, e: nat)
    requires
        i <= e <= s.len(),
        forall|j: int| i <= j < e ==> s[j] != 10u8,
        e == s.len() || s[e as int] == 10u8,
    ensures
        line_end(s, i) == e,
    decreases e - i,
{
    if i < e {
        lemma_line_end(s, i + 1, e);
    }
}

/// Copy the bytes from `start` up to `stop`.
fn copy_range(b: &Vec<u8>, start: usize, stop: usize) -> (v: Vec<u8>)
    requires
        start <= stop <= b@.len(),
    ensures
        v@ == b@.subrange(start as int, stop as int),
{
    let mut v: Vec<u8> = Vec::new();
    let mut k = start;
    while k < stop
        invariant
            start <= k <= stop <= b@.len(),
            v@ == b@.subrange(start as int, k as int),
        decreases stop - k,
    {
        v.push(b[k]);
        proof {
            assert(v@ =~= b@.subrange(start as int, k + 1));
        }
        k += 1;
    }
    v
}

/// Emulate a per-line loopback on a serial port: for each line of the message,
/// an event that it was put on the wire and one that it was received from it.
pub fn loopback(message: &[u8]) -> (events: Vec<EndpointEvent>)
    ensures
        endpoint_event_views(events@) == mock_loopback(message@),
        vstd::utf8::valid_utf8(message@) ==> endpoint_event_views(events@) == loopback_events(lines_from(message@, 0)),
{
    let text = from_utf8_lossy(message);
    let bytes = text.as_str().as_bytes_vec();
    let ghost b = bytes@;
    proof {
        assert(b == vstd::utf8::encode_utf8(text@));
    }
    let n = bytes.len();
    let mut events: Vec<EndpointEvent> = Vec::new();
    let mut i: usize = 0;
    while i < n
        invariant
            n == b.len(),
            b == bytes@,
            b == vstd::utf8::encode_utf8(lossy_utf8(message@)),
            i <= n,
            loopback_events(lines_from(b, 0)) == endpoint_event_views(events@) + loopback_events(lines_from(b, i as nat)),
        decreases n + 1 - i,
    {
        let mut e = i;
        while e < n && bytes[e] != 10u8
            invariant
                n == b.len(),
                b == bytes@,
                i <= e <= n,
                forall|j: int| i <= j < e ==> b[j] != 10u8,
            decreases n - e,
        {
            e += 1;
        }
        proof {
            lemma_line_end(b, i as nat, e as nat);
        }
        let stop = if e < n && e > i && bytes[e - 1] == 13u8 { e - 1 } else { e };
        let line = copy_range(&bytes, i, stop);
        let ghost before = events@;
        let again = copy_range(&bytes, i, stop);
        events.push(EndpointEvent::ToWire(line));
        events.push(EndpointEvent::FromWire(again));
        proof {
            let l = b.subrange(i as int, stop as int);
            let next: nat = if e < n { (e + 1) as nat } else { n as nat };
            let rest = lines_from(b, next);
            lemma_line_end_bounds(b, i as nat);
            assert(lines_from(b, i as nat) == seq![l] + rest);
            assert((seq![l] + rest).drop_first() =~= rest);
            assert(loopback_events(seq![l] + rest)
                == seq![EndpointEventView::ToWire(l), EndpointEventView::FromWire(l)] + loopback_events(rest));
            assert(endpoint_event_views(events@) =~= endpoint_event_views(before)
                + seq![EndpointEventView::ToWire(l), EndpointEventView::FromWire(l)]);
        }
        i = if e < n { e + 1 } else { n };
    }
    proof {
        assert(endpoint_event_views(events@) + Seq::<EndpointEventView>::empty() =~= endpoint_event_views(events@));
        if vstd::utf8::valid_utf8(message@) {
            vstd::utf8::decode_utf8_encode_utf8(message@);
        }
    }
    events
}

/// A line written to a mock comes back as it is: a text without newlines is
/// one line, which goes on the wire and comes back from it.
pub proof fn law_line_loops_back(b: Seq<u8>)
    requires
        b.len() > 0,
        forall|i: int| 0 <= i < b.len() ==> b[i] != 10u8,
    ensures
        loopback_events(lines_from(b, 0)) == seq![EndpointEventView::ToWire(b), EndpointEventView::FromWire(b)],
{
    lemma_line_end(b, 0, b.len());
    assert(b.subrange(0, b.len() as int) =~= b);
    let lines = lines_from(b, 0);
    assert(lines =~= seq![b]);
    assert(lines.drop_first() =~= Seq::<Seq<u8>>::empty());
    assert(loopback_events(lines.drop_first()) == Seq::<EndpointEventView>::empty());
    assert(loopback_events(lines) =~= seq![EndpointEventView::ToWire(b), EndpointEventView::FromWire(b)]);
}

/// Builds a mock endpoint: its identity, the semaphore it shares with its
/// group, if any, and its labels, if any.
#[derive(Debug)]
pub struct MockBuilder {
    /// The mock's identity.
    pub mock_id: MockId,
    /// The semaphore it shares with its group, if set.
    pub semaphore: Option<u64>,
    /// Its labels, if any were added.
    pub labels: Option<Labels>,
}

impl MockBuilder {
    /// A builder with no semaphore and no labels.
    pub fn new(mock_id: MockId) -> (b: Self)
        ensures
            b.mock_id@ == mock_id@,
            b.semaphore is None,
            opt_labels_view(b.labels) is None,
    {
        MockBuilder { mock_id, semaphore: None, labels: None }
    }

    /// Set the semaphore to use.
    pub fn set_semaphore(self, semaphore: u64) -> (b: Self)
        ensures
            b.mock_id@ == self.mock_id@,
            b.semaphore == Some(semaphore),
            opt_labels_view(b.labels) == opt_labels_view(self.labels),
    {
        MockBuilder { mock_id: self.mock_id, semaphore: Some(semaphore), labels: self.labels }
    }

    /// Add a label: the labels so far, if any, then this one.
    pub fn add_label(self, label: Label) -> (b: Self)
        ensures
            b.mock_id@ == self.mock_id@,
            b.semaphore == self.semaphore,
            opt_labels_view(b.labels) == Some(
                match opt_labels_view(self.labels) {
                    Some(ls) => ls,
                    None => Seq::empty(),
                }.push(label@),
            ),
    {
        let mut labels = match self.labels {
            Some(ls) => ls,
            None => Labels::new(),
        };
        labels.push_label(label);
        MockBuilder { mock_id: self.mock_id, semaphore: self.semaphore, labels: Some(labels) }
    }
}

} // verus!
