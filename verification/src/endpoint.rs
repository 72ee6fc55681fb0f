use vstd::prelude::*;

use crate::mock::{MockId, MockIdView, display_mock_id};
use crate::text::owned;

verus! {

/// An endpoint a client may ask to observe.
#[derive(Debug, PartialEq, Eq, Hash)]
pub enum EndpointId {
    /// A tty/COM endpoint.
    Tty(String),
    /// An endpoint consisting of in-memory data,
    /// like lines of serial output.
    Mock(String),
}

/// The older name of [`EndpointId`].
pub type EndpointLabel = EndpointId;

/// The mathematical value of an [`EndpointId`].
pub enum EndpointIdView {
    /// A tty/COM endpoint.
    Tty(Seq<char>),
    /// A mock endpoint.
    Mock(Seq<char>),
}

impl View for EndpointId {
    type V = EndpointIdView;

    open spec fn view(&self) -> EndpointIdView {
        match self {
            EndpointId::Tty(t) => EndpointIdView::Tty(t@),
            EndpointId::Mock(m) => EndpointIdView::Mock(m@),
        }
    }
}

/// How an endpoint id is shown to people: `tty: <path>` or `mock: <name>`.
pub open spec fn display_endpoint_id(id: EndpointIdView) -> Seq<char> {
    match id {
        EndpointIdView::Tty(t) => "tty: "@ + t,
        EndpointIdView::Mock(m) => "mock: "@ + m,
    }
}

/// How an endpoint id is shown for debugging: `Tty("<path>")` or `Mock("<name>")`.
pub open spec fn debug_endpoint_id(id: EndpointIdView) -> Seq<char> {
    match id {
        EndpointIdView::Tty(t) => "Tty(\""@ + t + "\")"@,
        EndpointIdView::Mock(m) => "Mock(\""@ + m + "\")"@,
    }
}

impl EndpointId {
    /// A new TTY endpoint identifier.
    pub fn tty(tty: &str) -> (id: Self)
        ensures
            id@ == EndpointIdView::Tty(tty@),
    {
        EndpointId::Tty(owned(tty))
    }

    /// A id for a mock endpoint.
    pub fn mock(name: &str) -> (id: Self)
        ensures
            id@ == EndpointIdView::Mock(name@),
    {
        EndpointId::Mock(owned(name))
    }

    /// Borrow endpoint id as the mock variant.
    pub fn as_mock(&self) -> (name: Option<&String>)
        ensures
            match self@ {
                EndpointIdView::Mock(m) => name is Some && name.unwrap()@ == m,
                EndpointIdView::Tty(_) => name is None,
            },
    {
        match self {
            EndpointId::Mock(v) => Some(v),
            EndpointId::Tty(_) => None,
        }
    }

    /// Borrow endpoint id as the TTY variant.
    pub fn as_tty(&self) -> (path: Option<&String>)
        ensures
            match self@ {
                EndpointIdView::Tty(t) => path is Some && path.unwrap()@ == t,
                EndpointIdView::Mock(_) => path is None,
            },
    {
        match self {
            EndpointId::Tty(v) => Some(v),
            EndpointId::Mock(_) => None,
        }
    }

    /// Whether this is a mock endpoint.
    pub fn is_mock(&self) -> (b: bool)
        ensures
            b == (self@ is Mock),
    {
        match self {
            EndpointId::Mock(_) => true,
            EndpointId::Tty(_) => false,
        }
    }

    /// A copy of this id.
    pub fn duplicate(&self) -> (id: Self)
        ensures
            id@ == self@,
    {
        match self {
            EndpointId::Tty(t) => EndpointId::Tty(t.clone()),
            EndpointId::Mock(m) => EndpointId::Mock(m.clone()),
        }
    }

    /// Whether two ids are equal.
    pub fn same_as(&self, other: &EndpointId) -> (same: bool)
        ensures
            same == (self@ == other@),
    {
        match (self, other) {
            (EndpointId::Tty(a), EndpointId::Tty(b)) => *a == *b,
            (EndpointId::Mock(a), EndpointId::Mock(b)) => *a == *b,
            _ => false,
        }
    }

    /// The id as shown to people.
    pub fn display(&self) -> (s: String)
        ensures
            s@ == display_endpoint_id(self@),
    {
        match self {
            EndpointId::Tty(t) => {
                proof { reveal_strlit("tty: "); }
                let mut s = owned("tty: ");
                s.append(t.as_str());
                s
            },
            EndpointId::Mock(m) => {
                proof { reveal_strlit("mock: "); }
                let mut s = owned("mock: ");
                s.append(m.as_str());
                s
            },
        }
    }

    /// The id as shown for debugging.
    pub fn debug(&self) -> (s: String)
        ensures
            s@ == debug_endpoint_id(self@),
    {
        proof { reveal_strlit("\")"); }
        match self {
            EndpointId::Tty(t) => {
                proof { reveal_strlit("Tty(\""); }
                let mut s = owned("Tty(\"");
                s.append(t.as_str());
                s.append("\")");
                s
            },
            EndpointId::Mock(m) => {
                proof { reveal_strlit("Mock(\""); }
                let mut s = owned("Mock(\"");
                s.append(m.as_str());
                s.append("\")");
                s
            },
        }
    }
}

impl Clone for EndpointId {
    fn clone(&self) -> (id: Self)
        ensures
            id@ == self@,
    {
        self.duplicate()
    }
}

/// A label an endpoint may be associated with.
///
/// Using the same label for several endpoints allows querying the label
/// and thus queuing on endpoints sharing the label.
#[derive(Debug, PartialEq, Eq, Hash)]
pub struct Label(pub String);

impl View for Label {
    type V = Seq<char>;

    open spec fn view(&self) -> Seq<char> {
        self.0@
    }
}

impl Label {
    /// Create a new label.
    pub fn new(label: &str) -> (l: Self)
        ensures
            l@ == label@,
    {
        Label(owned(label))
    }

    /// A copy of this label.
    pub fn duplicate(&self) -> (l: Self)
        ensures
            l@ == self@,
    {
        Label(self.0.clone())
    }

    /// The label's text.
    pub fn as_str(&self) -> (s: &str)
        ensures
            s@ == self@,
    {
        self.0.as_str()
    }
}

impl Clone for Label {
    fn clone(&self) -> (l: Self)
        ensures
            l@ == self@,
    {
        self.duplicate()
    }
}

/// The labels of a list, as text.
pub open spec fn label_views(v: Seq<Label>) -> Seq<Seq<char>> {
    v.map_values(|l: Label| l@)
}

/// How labels are shown to people: each label followed by a space.
pub open spec fn display_labels(ls: Seq<Seq<char>>) -> Seq<char>
    decreases ls.len(),
{
    if ls.len() == 0 {
        Seq::empty()
    } else {
        display_labels(ls.drop_last()) + ls.last() + " "@
    }
}

/// How labels are shown for debugging: `Labels([Label("a"), Label("b")])`.
pub open spec fn debug_labels(ls: Seq<Seq<char>>) -> Seq<char> {
    "Labels(["@ + debug_label_list(ls) + "])"@
}

/// The comma separated debug rendering of labels.
pub open spec fn debug_label_list(ls: Seq<Seq<char>>) -> Seq<char>
    decreases ls.len(),
{
    if ls.len() == 0 {
        Seq::empty()
    } else if ls.len() == 1 {
        "Label(\""@ + ls[0] + "\")"@
    } else {
        debug_label_list(ls.drop_last()) + ", "@ + "Label(\""@ + ls.last() + "\")"@
    }
}

/// A collection of [`Label`]s.
#[derive(Debug, PartialEq, Eq, Hash)]
pub struct Labels(Vec<Label>);

impl View for Labels {
    type V = Seq<Seq<char>>;

    closed spec fn view(&self) -> Seq<Seq<char>> {
        label_views(self.0@)
    }
}

/// Whether every label of `small` is a label of `big`.
pub open spec fn labels_superset(big: Seq<Seq<char>>, small: Seq<Seq<char>>) -> bool {
    forall|i: int| 0 <= i < small.len() ==> #[trigger] big.contains(small[i])
}

/// Labels carry themselves: an endpoint matches a request for exactly its labels.
pub proof fn law_labels_superset_reflexive(ls: Seq<Seq<char>>)
    ensures
        labels_superset(ls, ls),
{
    assert forall|i: int| 0 <= i < ls.len() implies #[trigger] ls.contains(ls[i]) by {
        assert(ls[i] == ls[i]);
    }
}

impl Labels {
    /// No labels.
    pub fn new() -> (ls: Self)
        ensures
            ls@ == Seq::<Seq<char>>::empty(),
    {
        Labels(Vec::new())
    }

    /// Labels with the given texts, in order.
    pub fn from_strs(labels: &[&str]) -> (ls: Self)
        ensures
            ls@ == labels@.map_values(|s: &str| s@),
    {
        let mut v: Vec<Label> = Vec::new();
        let mut i: usize = 0;
        while i < labels.len()
            invariant
                i <= labels@.len(),
                label_views(v@) == labels@.subrange(0, i as int).map_values(|s: &str| s@),
            decreases labels@.len() - i,
        {
            let ghost before = v@;
            v.push(Label::new(labels[i]));
            proof {
                assert(labels@.subrange(0, i + 1) =~= labels@.subrange(0, i as int).push(labels@[i as int]));
                assert(labels@.subrange(0, i + 1).map_values(|s: &str| s@) =~= labels@.subrange(0, i as int).map_values(|s: &str| s@).push(labels@[i as int]@));
                assert(label_views(v@) =~= label_views(before).push(labels@[i as int]@));
            }
            i += 1;
        }
        proof {
            assert(labels@.subrange(0, labels@.len() as int) == labels@);
        }
        Labels(v)
    }

    /// A single label.
    pub fn from_label(label: &str) -> (ls: Self)
        ensures
            ls@ == seq![label@],
    {
        let mut v: Vec<Label> = Vec::new();
        v.push(Label::new(label));
        proof {
            assert(label_views(v@) =~= seq![label@]);
        }
        Labels(v)
    }

    /// The labels, in order.
    pub fn iter(&self) -> (s: &[Label])
        ensures
            label_views(s@) == self@,
    {
        self.0.as_slice()
    }

    /// Whether there are no labels.
    pub fn is_empty(&self) -> (b: bool)
        ensures
            b == (self@.len() == 0),
    {
        self.0.len() == 0
    }

    /// How many labels there are.
    pub fn len(&self) -> (n: usize)
        ensures
            n == self@.len(),
    {
        self.0.len()
    }

    /// Add a label at the end.
    pub fn push(&mut self, label: &str)
        ensures
            final(self)@ == old(self)@.push(label@),
    {
        self.0.push(Label::new(label));
        proof {
            assert(label_views(self.0@) =~= label_views(old(self).0@).push(label@));
        }
    }

    /// Add a label at the end.
    pub fn push_label(&mut self, label: Label)
        ensures
            final(self)@ == old(self)@.push(label@),
    {
        let ghost l = label@;
        self.0.push(label);
        proof {
            assert(label_views(self.0@) =~= label_views(old(self).0@).push(l));
        }
    }

    /// Whether one of the labels is `label`.
    pub fn contains(&self, label: &Label) -> (b: bool)
        ensures
            b == self@.contains(label@),
    {
        let mut i: usize = 0;
        while i < self.0.len()
            invariant
                i <= self.0@.len(),
                forall|j: int| 0 <= j < i ==> self@[j] != label@,
            decreases self.0@.len() - i,
        {
            if self.0[i].0 == label.0 {
                proof { assert(self@[i as int] == label@); }
                return true;
            }
            i += 1;
        }
        proof {
            if self@.contains(label@) {
                let k = choose|k: int| 0 <= k < self@.len() && self@[k] == label@;
                assert(self@[k] != label@);
            }
        }
        false
    }

    /// Whether both hold the same labels in the same order.
    pub fn same_as(&self, other: &Labels) -> (same: bool)
        ensures
            same == (self@ == other@),
    {
        proof {
            assert(self@.len() == self.0@.len() && other@.len() == other.0@.len());
        }
        if self.0.len() != other.0.len() {
            return false;
        }
        let mut i: usize = 0;
        while i < self.0.len()
            invariant
                i <= self.0@.len(),
                self.0@.len() == other.0@.len(),
                self@.len() == self.0@.len(),
                other@.len() == other.0@.len(),
                forall|j: int| 0 <= j < i ==> self@[j] == other@[j],
            decreases self.0@.len() - i,
        {
            if self.0[i].0 != other.0[i].0 {
                proof { assert(self@[i as int] != other@[i as int]); }
                return false;
            }
            i += 1;
        }
        proof { assert(self@ =~= other@); }
        true
    }

    /// Whether every label of `other` is also a label here.
    pub fn is_superset(&self, other: &Labels) -> (b: bool)
        ensures
            b == labels_superset(self@, other@),
            b <==> forall|j: int| 0 <= j < other@.len() ==> self@.contains(#[trigger] other@[j]),
    {
        let mut i: usize = 0;
        while i < other.0.len()
            invariant
                i <= other.0@.len(),
                forall|j: int| 0 <= j < i ==> #[trigger] self@.contains(other@[j]),
            decreases other.0@.len() - i,
        {
            if !self.contains(&other.0[i]) {
                proof {
                    assert(other@[i as int] == other.0@[i as int]@);
                    assert(!self@.contains(other@[i as int]));
                }
                return false;
            }
            i += 1;
        }
        true
    }

    /// The distinct labels: each label once, in order of first appearance.
    pub fn as_hash_set(&self) -> (set: Vec<Label>)
        ensures
            label_views(set@).to_set() == self@.to_set(),
            label_views(set@).no_duplicates(),
    {
        let mut out = Labels::new();
        let mut i: usize = 0;
        while i < self.0.len()
            invariant
                i <= self.0@.len(),
                forall|x: Seq<char>| out@.contains(x) <==> #[trigger] self@.subrange(0, i as int).contains(x),
                out@.no_duplicates(),
            decreases self.0@.len() - i,
        {
            let ghost before = out@;
            let ghost prefix = self@.subrange(0, i as int);
            let ghost next = self@.subrange(0, i + 1);
            if !out.contains(&self.0[i]) {
                out.push_label(self.0[i].duplicate());
            }
            proof {
                assert(next =~= prefix.push(self@[i as int]));
                assert forall|x: Seq<char>| out@.contains(x) <==> #[trigger] next.contains(x) by {
                    if next.contains(x) {
                        if x == self@[i as int] {
                            if !before.contains(x) {
                                assert(out@[out@.len() - 1] == x);
                            } else {
                                let k = choose|k: int| 0 <= k < before.len() && before[k] == x;
                                assert(out@[k] == x);
                            }
                        } else {
                            let k = choose|k: int| 0 <= k < next.len() && next[k] == x;
                            assert(prefix[k] == x);
                            assert(prefix.contains(x));
                            assert(before.contains(x));
                            let k2 = choose|k2: int| 0 <= k2 < before.len() && before[k2] == x;
                            assert(out@[k2] == x);
                        }
                    }
                    if out@.contains(x) {
                        let k = choose|k: int| 0 <= k < out@.len() && out@[k] == x;
                        if k < before.len() {
                            assert(before[k] == x);
                            assert(before.contains(x));
                            assert(prefix.contains(x));
                            let k2 = choose|k2: int| 0 <= k2 < prefix.len() && prefix[k2] == x;
                            assert(next[k2] == prefix[k2]);
                            assert(next.contains(x));
                        } else {
                            assert(next[i as int] == x);
                        }
                    }
                }
            }
            i += 1;
        }
        proof {
            assert(self@.subrange(0, self@.len() as int) =~= self@);
            assert(out@.to_set() =~= self@.to_set());
        }
        out.0
    }

    /// The distinct labels, consuming the collection.
    pub fn into_hash_set(self) -> (set: Vec<Label>)
        ensures
            label_views(set@).to_set() == self@.to_set(),
            label_views(set@).no_duplicates(),
    {
        self.as_hash_set()
    }

    /// A copy of these labels.
    pub fn duplicate(&self) -> (ls: Self)
        ensures
            ls@ == self@,
    {
        let mut out = Labels::new();
        let mut i: usize = 0;
        while i < self.0.len()
            invariant
                i <= self.0@.len(),
                out@ == self@.subrange(0, i as int),
            decreases self.0@.len() - i,
        {
            out.push_label(self.0[i].duplicate());
            proof {
                assert(self@.subrange(0, i + 1) =~= self@.subrange(0, i as int).push(self@[i as int]));
            }
            i += 1;
        }
        proof {
            assert(self@.subrange(0, self@.len() as int) =~= self@);
        }
        out
    }

    /// The labels as shown to people.
    pub fn display(&self) -> (s: String)
        ensures
            s@ == display_labels(self@),
    {
        let mut s = String::new();
        let mut i: usize = 0;
        proof { reveal_strlit(" "); }
        while i < self.0.len()
            invariant
                i <= self.0@.len(),
                s@ == display_labels(self@.subrange(0, i as int)),
            decreases self.0@.len() - i,
        {
            s.append(self.0[i].0.as_str());
            s.append(" ");
            proof {
                let next = self@.subrange(0, i + 1);
                assert(next.drop_last() =~= self@.subrange(0, i as int));
                assert(next.last() == self@[i as int]);
            }
            i += 1;
        }
        proof {
            assert(self@.subrange(0, self@.len() as int) =~= self@);
        }
        s
    }

    /// The labels as shown for debugging.
    pub fn debug(&self) -> (s: String)
        ensures
            s@ == debug_labels(self@),
    {
        proof {
            reveal_strlit("Labels([");
            reveal_strlit("])");
            reveal_strlit("Label(\"");
            reveal_strlit("\")");
            reveal_strlit(", ");
        }
        let mut s = owned("Labels([");
        let mut i: usize = 0;
        while i < self.0.len()
            invariant
                i <= self.0@.len(),
                s@ == "Labels(["@ + debug_label_list(self@.subrange(0, i as int)),
            decreases self.0@.len() - i,
        {
            let ghost before = s@;
            if i > 0 {
                s.append(", ");
            }
            s.append("Label(\"");
            s.append(self.0[i].0.as_str());
            s.append("\")");
            proof {
                let next = self@.subrange(0, i + 1);
                assert(next.drop_last() =~= self@.subrange(0, i as int));
                assert(next.last() == self@[i as int]);
                if i == 0 {
                    assert(next[0] == self@[0]);
                    assert(s@ =~= "Labels(["@ + debug_label_list(next));
                } else {
                    assert(s@ =~= "Labels(["@ + debug_label_list(next));
                }
            }
            i += 1;
        }
        s.append("])");
        proof {
            assert(self@.subrange(0, self@.len() as int) =~= self@);
        }
        s
    }
}

impl Clone for Labels {
    fn clone(&self) -> (ls: Self)
        ensures
            ls@ == self@,
    {
        self.duplicate()
    }
}

/// The mathematical value of optional labels.
pub open spec fn opt_labels_view(ls: Option<Labels>) -> Option<Seq<Seq<char>>> {
    match ls {
        Some(l) => Some(l@),
        None => None,
    }
}

/// A copy of optional labels.
pub fn duplicate_opt_labels(ls: &Option<Labels>) -> (r: Option<Labels>)
    ensures
        opt_labels_view(r) == opt_labels_view(*ls),
{
    match ls {
        Some(l) => Some(l.duplicate()),
        None => None,
    }
}

/// Labels given in two places, kept together: the first place's, then the second's.
pub open spec fn merged_labels(a: Option<Seq<Seq<char>>>, b: Option<Seq<Seq<char>>>) -> Option<Seq<Seq<char>>> {
    match (a, b) {
        (Some(x), Some(y)) => Some(x + y),
        (Some(x), None) => Some(x),
        (None, y) => y,
    }
}

/// Keep labels given in two places together; see [`merged_labels`].
pub fn merge_opt_labels(a: &Option<Labels>, b: &Option<Labels>) -> (r: Option<Labels>)
    ensures
        opt_labels_view(r) == merged_labels(opt_labels_view(*a), opt_labels_view(*b)),
{
    match a {
        None => duplicate_opt_labels(b),
        Some(x) => match b {
            None => Some(x.duplicate()),
            Some(y) => {
                let mut out = x.duplicate();
                let ys = y.iter();
                let mut i: usize = 0;
                while i < ys.len()
                    invariant
                        i <= ys@.len(),
                        label_views(ys@) == y@,
                        out@ == x@ + y@.subrange(0, i as int),
                    decreases ys@.len() - i,
                {
                    let ghost before = out@;
                    out.push_label(ys[i].duplicate());
                    proof {
                        assert(label_views(ys@)[i as int] == ys@[i as int]@);
                        assert(out@ =~= x@ + y@.subrange(0, i + 1));
                    }
                    i += 1;
                }
                proof {
                    assert(y@.subrange(0, y@.len() as int) =~= y@);
                }
                Some(out)
            },
        },
    }
}

/// An endpoint and the labels associated with it, if any.
#[derive(Debug, PartialEq, Eq, Hash)]
pub struct LabelledEndpointId {
    /// The [`EndpointId`].
    pub id: EndpointId,
    /// Associated [`Label`]s, if any.
    pub labels: Option<Labels>,
}

/// The mathematical value of a [`LabelledEndpointId`].
pub struct LabelledEndpointIdView {
    /// The endpoint.
    pub id: EndpointIdView,
    /// Its labels, if any.
    pub labels: Option<Seq<Seq<char>>>,
}

impl View for LabelledEndpointId {
    type V = LabelledEndpointIdView;

    open spec fn view(&self) -> LabelledEndpointIdView {
        LabelledEndpointIdView { id: self.id@, labels: opt_labels_view(self.labels) }
    }
}

/// Labels given as a list of texts: none when the list is empty.
pub open spec fn labels_from_texts(labels: Seq<&str>) -> Option<Seq<Seq<char>>> {
    if labels.len() == 0 {
        None
    } else {
        Some(labels.map_values(|s: &str| s@))
    }
}

/// How a labelled endpoint id is shown to people.
pub open spec fn display_labelled(v: LabelledEndpointIdView) -> Seq<char> {
    match v.labels {
        Some(ls) => display_endpoint_id(v.id) + ", labels: "@ + display_labels(ls),
        None => display_endpoint_id(v.id),
    }
}

impl LabelledEndpointId {
    /// An endpoint id with no labels.
    pub fn new(id: &EndpointId) -> (l: Self)
        ensures
            l@ == (LabelledEndpointIdView { id: id@, labels: None }),
    {
        LabelledEndpointId { id: id.duplicate(), labels: None }
    }

    /// An endpoint id with labels. No labels are kept when the list is empty.
    pub fn new_with_labels(id: &EndpointId, labels: &[&str]) -> (l: Self)
        ensures
            l@ == (LabelledEndpointIdView { id: id@, labels: labels_from_texts(labels@) }),
    {
        LabelledEndpointId {
            id: id.duplicate(),
            labels: if labels.len() == 0 { None } else { Some(Labels::from_strs(labels)) },
        }
    }

    /// A copy.
    pub fn duplicate(&self) -> (l: Self)
        ensures
            l@ == self@,
    {
        LabelledEndpointId { id: self.id.duplicate(), labels: duplicate_opt_labels(&self.labels) }
    }

    /// Whether both name the same endpoint with the same labels.
    pub fn same_as(&self, other: &LabelledEndpointId) -> (same: bool)
        ensures
            same == (self@ == other@),
    {
        if !self.id.same_as(&other.id) {
            return false;
        }
        match (&self.labels, &other.labels) {
            (Some(a), Some(b)) => a.same_as(b),
            (None, None) => true,
            _ => false,
        }
    }

    /// As shown to people.
    pub fn display(&self) -> (s: String)
        ensures
            s@ == display_labelled(self@),
    {
        let mut s = self.id.display();
        match &self.labels {
            Some(ls) => {
                proof { reveal_strlit(", labels: "); }
                s.append(", labels: ");
                let t = ls.display();
                s.append(t.as_str());
            },
            None => {},
        }
        s
    }
}

impl Clone for LabelledEndpointId {
    fn clone(&self) -> (l: Self)
        ensures
            l@ == self@,
    {
        self.duplicate()
    }
}

/// An endpoint as used internally.
#[derive(Debug, PartialEq, Eq, Hash)]
pub enum InternalEndpointId {
    /// A tty/COM endpoint.
    Tty(String),
    /// An endpoint consisting of in-memory data, owned by a user.
    Mock(MockId),
}

/// The mathematical value of an [`InternalEndpointId`].
pub enum InternalEndpointIdView {
    /// A tty/COM endpoint.
    Tty(Seq<char>),
    /// A mock endpoint.
    Mock(MockIdView),
}

impl View for InternalEndpointId {
    type V = InternalEndpointIdView;

    open spec fn view(&self) -> InternalEndpointIdView {
        match self {
            InternalEndpointId::Tty(t) => InternalEndpointIdView::Tty(t@),
            InternalEndpointId::Mock(m) => InternalEndpointIdView::Mock(m@),
        }
    }
}

/// How an internal endpoint id is shown: the path, or `user:name`.
pub open spec fn display_internal_id(id: InternalEndpointIdView) -> Seq<char> {
    match id {
        InternalEndpointIdView::Tty(t) => t,
        InternalEndpointIdView::Mock(m) => display_mock_id(m),
    }
}

/// The user facing id of an internal id: mocks lose their user.
pub open spec fn external_id(id: InternalEndpointIdView) -> EndpointIdView {
    match id {
        InternalEndpointIdView::Tty(t) => EndpointIdView::Tty(t),
        InternalEndpointIdView::Mock(m) => EndpointIdView::Mock(m.name),
    }
}

impl InternalEndpointId {
    /// A copy.
    pub fn duplicate(&self) -> (id: Self)
        ensures
            id@ == self@,
    {
        match self {
            InternalEndpointId::Tty(t) => InternalEndpointId::Tty(t.clone()),
            InternalEndpointId::Mock(m) => InternalEndpointId::Mock(m.duplicate()),
        }
    }

    /// Whether two ids are equal.
    pub fn same_as(&self, other: &InternalEndpointId) -> (same: bool)
        ensures
            same == (self@ == other@),
    {
        match (self, other) {
            (InternalEndpointId::Tty(a), InternalEndpointId::Tty(b)) => *a == *b,
            (InternalEndpointId::Mock(a), InternalEndpointId::Mock(b)) => a.same_as(b),
            _ => false,
        }
    }

    /// As shown to people.
    pub fn display(&self) -> (s: String)
        ensures
            s@ == display_internal_id(self@),
    {
        match self {
            InternalEndpointId::Tty(t) => t.clone(),
            InternalEndpointId::Mock(m) => m.display(),
        }
    }

    /// The user facing id.
    pub fn to_endpoint_id(&self) -> (id: EndpointId)
        ensures
            id@ == external_id(self@),
    {
        match self {
            InternalEndpointId::Tty(t) => EndpointId::Tty(t.clone()),
            InternalEndpointId::Mock(m) => EndpointId::Mock(m.name.clone()),
        }
    }
}

impl Clone for InternalEndpointId {
    fn clone(&self) -> (id: Self)
        ensures
            id@ == self@,
    {
        self.duplicate()
    }
}

/// An endpoint id as used internally, with the labels it was registered with.
/// Two infos are the same endpoint when their ids are equal.
#[derive(Debug)]
pub struct InternalEndpointInfo {
    /// The endpoint.
    pub id: InternalEndpointId,
    /// Its labels, if any.
    pub labels: Option<Labels>,
}

/// The mathematical value of an [`InternalEndpointInfo`].
pub struct InternalEndpointInfoView {
    /// The endpoint.
    pub id: InternalEndpointIdView,
    /// Its labels, if any.
    pub labels: Option<Seq<Seq<char>>>,
}

impl View for InternalEndpointInfo {
    type V = InternalEndpointInfoView;

    open spec fn view(&self) -> InternalEndpointInfoView {
        InternalEndpointInfoView { id: self.id@, labels: opt_labels_view(self.labels) }
    }
}

/// How an internal endpoint info is shown to people.
pub open spec fn display_info(v: InternalEndpointInfoView) -> Seq<char> {
    match v.labels {
        Some(ls) => display_internal_id(v.id) + ", labels: "@ + display_labels(ls),
        None => display_internal_id(v.id),
    }
}

/// The user facing form of an internal endpoint info.
pub open spec fn labelled_of_info(v: InternalEndpointInfoView) -> LabelledEndpointIdView {
    LabelledEndpointIdView { id: external_id(v.id), labels: v.labels }
}

impl InternalEndpointInfo {
    /// A new info.
    pub fn new(id: InternalEndpointId, labels: Option<Labels>) -> (info: Self)
        ensures
            info@ == (InternalEndpointInfoView { id: id@, labels: opt_labels_view(labels) }),
    {
        InternalEndpointInfo { id, labels }
    }

    /// A copy.
    pub fn duplicate(&self) -> (info: Self)
        ensures
            info@ == self@,
    {
        InternalEndpointInfo { id: self.id.duplicate(), labels: duplicate_opt_labels(&self.labels) }
    }

    /// As shown to people.
    pub fn display(&self) -> (s: String)
        ensures
            s@ == display_info(self@),
    {
        let mut s = self.id.display();
        match &self.labels {
            Some(ls) => {
                proof { reveal_strlit(", labels: "); }
                s.append(", labels: ");
                let t = ls.display();
                s.append(t.as_str());
            },
            None => {},
        }
        s
    }

    /// The user facing form.
    pub fn to_labelled(&self) -> (l: LabelledEndpointId)
        ensures
            l@ == labelled_of_info(self@),
    {
        LabelledEndpointId { id: self.id.to_endpoint_id(), labels: duplicate_opt_labels(&self.labels) }
    }
}

impl Clone for InternalEndpointInfo {
    fn clone(&self) -> (info: Self)
        ensures
            info@ == self@,
    {
        self.duplicate()
    }
}

/// The views of a list of infos.
pub open spec fn info_views(v: Seq<InternalEndpointInfo>) -> Seq<InternalEndpointInfoView> {
    v.map_values(|i: InternalEndpointInfo| i@)
}

/// Copy a list of infos.
pub fn duplicate_infos(v: &Vec<InternalEndpointInfo>) -> (r: Vec<InternalEndpointInfo>)
    ensures
        info_views(r@) == info_views(v@),
{
    let mut out: Vec<InternalEndpointInfo> = Vec::new();
    let mut i: usize = 0;
    while i < v.len()
        invariant
            i <= v@.len(),
            info_views(out@) == info_views(v@).subrange(0, i as int),
        decreases v@.len() - i,
    {
        let ghost before = out@;
        out.push(v[i].duplicate());
        proof {
            assert(info_views(out@) =~= info_views(before).push(v@[i as int]@));
            assert(info_views(out@) =~= info_views(v@).subrange(0, i + 1));
        }
        i += 1;
    }
    proof {
        assert(info_views(v@).subrange(0, v@.len() as int) =~= info_views(v@));
    }
    out
}

/// Something which happened on an endpoint's wire.
#[derive(Debug, PartialEq, Eq)]
pub enum EndpointEvent {
    /// These bytes were put on the wire.
    ToWire(Vec<u8>),
    /// These bytes came from the wire.
    FromWire(Vec<u8>),
}

/// The mathematical value of an [`EndpointEvent`].
pub enum EndpointEventView {
    /// Put on the wire.
    ToWire(Seq<u8>),
    /// Came from the wire.
    FromWire(Seq<u8>),
}

impl View for EndpointEvent {
    type V = EndpointEventView;

    open spec fn view(&self) -> EndpointEventView {
        match self {
            EndpointEvent::ToWire(b) => EndpointEventView::ToWire(b@),
            EndpointEvent::FromWire(b) => EndpointEventView::FromWire(b@),
        }
    }
}

impl EndpointEvent {
    /// The bytes, if they were put on the wire.
    pub fn into_to_wire(self) -> (bytes: Option<Vec<u8>>)
        ensures
            match self {
                EndpointEvent::ToWire(b) => bytes == Some(b),
                EndpointEvent::FromWire(_) => bytes is None,
            },
    {
        match self {
            EndpointEvent::ToWire(b) => Some(b),
            EndpointEvent::FromWire(_) => None,
        }
    }

    /// The bytes, if they came from the wire.
    pub fn into_from_wire(self) -> (bytes: Option<Vec<u8>>)
        ensures
            match self {
                EndpointEvent::FromWire(b) => bytes == Some(b),
                EndpointEvent::ToWire(_) => bytes is None,
            },
    {
        match self {
            EndpointEvent::FromWire(b) => Some(b),
            EndpointEvent::ToWire(_) => None,
        }
    }
}

} // verus!
