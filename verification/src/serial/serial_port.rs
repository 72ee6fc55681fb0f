use vstd::prelude::*;

use crate::endpoint::{EndpointEvent, EndpointEventView, Label, Labels};
use crate::serial::codecs::lines::{LinesCodec, LinesCodecView};

verus! {

/// Flow control on a serial line.
#[derive(Debug, Clone, Copy, PartialEq, Eq)]
pub enum FlowControl {
    /// No flow control.
    Off,
    /// Flow control using XON/XOFF bytes.
    Software,
    /// Flow control using RTS/CTS signals.
    Hardware,
}

/// Builder for a serial port endpoint.
#[derive(Debug)]
pub struct SerialPortBuilder {
    baud: Option<usize>,
    flow_control: Option<FlowControl>,
    path: String,
    line_codec: Option<LinesCodec>,
    semaphore: Option<u64>,
    labels: Labels,
}

/// The mathematical value of a [`SerialPortBuilder`].
pub struct SerialPortBuilderView {
    /// Baud, if set.
    pub baud: Option<usize>,
    /// Flow control, if set.
    pub flow_control: Option<FlowControl>,
    /// The port's path.
    pub path: Seq<char>,
    /// Line codec, if set.
    pub line_codec: Option<LinesCodecView>,
    /// Semaphore, if set.
    pub semaphore: Option<u64>,
    /// Labels.
    pub labels: Seq<Seq<char>>,
}

impl View for SerialPortBuilder {
    type V = SerialPortBuilderView;

    closed spec fn view(&self) -> SerialPortBuilderView {
        SerialPortBuilderView {
            baud: self.baud,
            flow_control: self.flow_control,
            path: self.path@,
            line_codec: match self.line_codec {
                Some(c) => Some(c@),
                None => None,
            },
            semaphore: self.semaphore,
            labels: self.labels@,
        }
    }
}

/// How a serial port is opened.
#[derive(Debug, PartialEq, Eq)]
pub struct PortSettings {
    /// Symbols per second.
    pub baud: u32,
    /// Flow control.
    pub flow_control: FlowControl,
    /// The port's path.
    pub path: String,
}

/// The baud used unless another is set.
pub const DEFAULT_BAUD: usize = 115_200;

/// The codec reading the port: the one set, else the default one.
pub open spec fn codec_of(b: SerialPortBuilderView) -> LinesCodecView {
    match b.line_codec {
        Some(c) => c,
        None => LinesCodecView { cursor: 0, read_delimiter: 10u8, write_delimiter: None, path: "/dev/ttyACM0"@ },
    }
}

impl SerialPortBuilder {
    /// Start a new builder.
    /// The tty should likely be along the lines of `/tty/ACMx` on unix, and `COMx` on Windows.
    pub fn new(tty: &str) -> (b: Self)
        ensures
            b@ == (SerialPortBuilderView {
                baud: None,
                flow_control: None,
                path: tty@,
                line_codec: None,
                semaphore: None,
                labels: Seq::empty(),
            }),
    {
        SerialPortBuilder {
            baud: None,
            flow_control: None,
            path: crate::text::owned(tty),
            line_codec: None,
            semaphore: None,
            labels: Labels::new(),
        }
    }

    /// Set the semaphore to use.
    pub fn set_semaphore(self, semaphore: u64) -> (b: Self)
        ensures
            b@ == (SerialPortBuilderView { semaphore: Some(semaphore), ..self@ }),
    {
        SerialPortBuilder { semaphore: Some(semaphore), ..self }
    }

    /// Add a label.
    pub fn add_label(self, label: Label) -> (b: Self)
        ensures
            b@ == (SerialPortBuilderView { labels: self@.labels.push(label@), ..self@ }),
    {
        let mut s = self;
        s.labels.push_label(label);
        s
    }

    /// Set the [`LinesCodec`] to use.
    pub fn set_line_codec(self, codec: LinesCodec) -> (b: Self)
        ensures
            b@ == (SerialPortBuilderView { line_codec: Some(codec@), ..self@ }),
    {
        SerialPortBuilder { line_codec: Some(codec), ..self }
    }

    /// Set the serial port builder's baud.
    /// Will use 115_200 if not set.
    pub fn set_baud(&mut self, baud: usize)
        ensures
            final(self)@ == (SerialPortBuilderView { baud: Some(baud), ..old(self)@ }),
    {
        self.baud = Some(baud);
    }

    /// Set the serial port builder's flow control.
    /// Will use no flow control if not set.
    pub fn set_flow_control(&mut self, flow_control: FlowControl)
        ensures
            final(self)@ == (SerialPortBuilderView { flow_control: Some(flow_control), ..old(self)@ }),
    {
        self.flow_control = Some(flow_control);
    }

    /// How the port is opened: the baud set (115_200 if none, taken modulo
    /// 2^32 as a `u32`), the flow control set (none if none), and the path.
    pub fn settings(&self) -> (s: PortSettings)
        ensures
            s.baud == (match self@.baud {
                Some(b) => b,
                None => DEFAULT_BAUD,
            }) as u32,
            s.flow_control == (match self@.flow_control {
                Some(f) => f,
                None => FlowControl::Off,
            }),
            s.path@ == self@.path,
    {
        let baud = match self.baud {
            Some(b) => b,
            None => DEFAULT_BAUD,
        };
        let flow_control = match self.flow_control {
            Some(f) => f,
            None => FlowControl::Off,
        };
        PortSettings { baud: baud as u32, flow_control, path: self.path.clone() }
    }

    /// The codec reading the port: the one set, else the default one.
    pub fn codec(&self) -> (c: LinesCodec)
        ensures
            c@ == codec_of(self@),
    {
        match &self.line_codec {
            Some(c) => c.duplicate(),
            None => LinesCodec::default(),
        }
    }

    /// The semaphore set, if any.
    pub fn semaphore(&self) -> (s: Option<u64>)
        ensures
            s == self@.semaphore,
    {
        self.semaphore
    }

    /// The labels added, in order.
    pub fn labels(&self) -> (l: Labels)
        ensures
            l@ == self@.labels,
    {
        self.labels.duplicate()
    }
}

/// Whether two characters are equal once ASCII upper case letters are lowered.
pub open spec fn same_ignoring_ascii_case(a: char, b: char) -> bool {
    ||| a == b
    ||| ('A' <= a && a <= 'Z' && (a as u32) + 32 == b as u32)
    ||| ('A' <= b && b <= 'Z' && (b as u32) + 32 == a as u32)
}

/// Whether `needle` occurs in `hay` at position `i`, ignoring ASCII case.
pub open spec fn occurs_at_ignoring_case(hay: Seq<char>, needle: Seq<char>, i: int) -> bool {
    &&& 0 <= i
    &&& i + needle.len() <= hay.len()
    &&& forall|k: int| 0 <= k < needle.len() ==> same_ignoring_ascii_case(#[trigger] hay[i + k], needle[k])
}

/// Whether `needle` occurs in `hay`, ignoring ASCII case.
pub open spec fn contains_ignoring_case(hay: Seq<char>, needle: Seq<char>) -> bool {
    exists|i: int| occurs_at_ignoring_case(hay, needle, i)
}

/// Whether an error opening a port says the port is busy: its text, lowered,
/// holds `busy` (or `denied`, as Windows says). For these ASCII words, lowering
/// only ASCII letters finds the same matches as full Unicode lowering.
pub open spec fn error_means_busy(text: Seq<char>) -> bool {
    contains_ignoring_case(text, "busy"@) || contains_ignoring_case(text, "denied"@)
}

fn same_char_ignoring_case(a: char, b: char) -> (r: bool)
    ensures
        r == same_ignoring_ascii_case(a, b),
{
    let x = a as u32;
    let y = b as u32;
    x == y || (65 <= x && x <= 90 && x + 32 == y) || (65 <= y && y <= 90 && y + 32 == x)
}

/// Whether `needle` occurs in `hay`, ignoring ASCII case.
pub fn find_ignoring_case(hay: &str, needle: &str) -> (found: bool)
    ensures
        found == contains_ignoring_case(hay@, needle@),
{
    let n = hay.unicode_len();
    let m = needle.unicode_len();
    if m > n {
        proof {
            assert forall|i: int| !occurs_at_ignoring_case(hay@, needle@, i) by {}
        }
        return false;
    }
    let mut i: usize = 0;
    while i <= n - m
        invariant
            n == hay@.len(),
            m == needle@.len(),
            m <= n,
            i <= n - m + 1,
            forall|j: int| 0 <= j < i ==> !occurs_at_ignoring_case(hay@, needle@, j),
        decreases n - m + 1 - i,
    {
        let mut k: usize = 0;
        let mut all = true;
        while k < m
            invariant
                n == hay@.len(),
                m == needle@.len(),
                i + m <= n,
                k <= m,
                all ==> forall|q: int| 0 <= q < k ==> same_ignoring_ascii_case(#[trigger] hay@[i + q], needle@[q]),
                !all ==> !occurs_at_ignoring_case(hay@, needle@, i as int),
            decreases m - k,
        {
            if all && !same_char_ignoring_case(hay.get_char(i + k), needle.get_char(k)) {
                all = false;
            }
            k += 1;
        }
        if all {
            proof {
                assert(occurs_at_ignoring_case(hay@, needle@, i as int));
            }
            return true;
        }
        i += 1;
    }
    proof {
        assert forall|j: int| !occurs_at_ignoring_case(hay@, needle@, j) by {
            if occurs_at_ignoring_case(hay@, needle@, j) {
                assert(j < i);
            }
        }
    }
    false
}

/// Whether the text of an error opening a port says the port is busy.
pub fn error_text_means_busy(text: &str) -> (busy: bool)
    ensures
        busy == error_means_busy(text@),
{
    find_ignoring_case(text, "busy") || find_ignoring_case(text, "denied")
}

/// Whether a probed port is still in use by this server: opening it again
/// failed because it is busy. `open_error` is the text of the error opening it,
/// or `None` when it could be opened (which is not expected of a port in use).
pub fn is_port_busy(open_error: Option<&str>) -> (busy: bool)
    ensures
        busy == (match open_error {
            Some(t) => error_means_busy(t@),
            None => false,
        }),
{
    match open_error {
        Some(t) => error_text_means_busy(t),
        None => false,
    }
}

/// Whether a probed port has gone away: opening it again failed, and not
/// because it is busy.
pub fn probe_means_disconnected(open_error: Option<&str>) -> (gone: bool)
    ensures
        gone == (match open_error {
            Some(t) => !error_means_busy(t@),
            None => false,
        }),
{
    match open_error {
        Some(t) => !error_text_means_busy(t),
        None => false,
    }
}

/// What happened to a serial port connection.
#[derive(Debug)]
pub enum WireEvent {
    /// A user asks that these bytes be put on the wire.
    PleasePutThisOnWire(Vec<u8>),
    /// The bytes were written, or writing failed.
    Written(Vec<u8>, bool),
    /// A line came from the wire.
    ThisCameFromWire(Vec<u8>),
    /// Reading from the wire failed.
    ReadFailed,
    /// Probing found the port gone.
    PortGone,
}

/// What to do next on a serial port connection.
#[derive(Debug)]
pub enum WireStep {
    /// Write these bytes.
    Write(Vec<u8>),
    /// Tell every listener.
    Broadcast(EndpointEvent),
    /// Drop the connection and open the port again.
    Reconnect,
}

/// The mathematical value of a [`WireStep`].
pub enum WireStepView {
    /// Write.
    Write(Seq<u8>),
    /// Broadcast.
    Broadcast(EndpointEventView),
    /// Reconnect.
    Reconnect,
}

impl View for WireStep {
    type V = WireStepView;

    open spec fn view(&self) -> WireStepView {
        match self {
            WireStep::Write(b) => WireStepView::Write(b@),
            WireStep::Broadcast(e) => WireStepView::Broadcast(e@),
            WireStep::Reconnect => WireStepView::Reconnect,
        }
    }
}

/// The next step after an event: requested bytes are written; written bytes
/// are announced as put on the wire; lines read are announced as come from
/// the wire; a failed write or read, or a port gone, means reconnecting.
pub open spec fn wire_step(e: WireEvent) -> WireStepView {
    match e {
        WireEvent::PleasePutThisOnWire(b) => WireStepView::Write(b@),
        WireEvent::Written(b, ok) =>
            if ok { WireStepView::Broadcast(EndpointEventView::ToWire(b@)) } else { WireStepView::Reconnect },
        WireEvent::ThisCameFromWire(b) => WireStepView::Broadcast(EndpointEventView::FromWire(b@)),
        WireEvent::ReadFailed => WireStepView::Reconnect,
        WireEvent::PortGone => WireStepView::Reconnect,
    }
}

/// Decide the next step of a serial port connection.
pub fn next_wire_step(e: WireEvent) -> (s: WireStep)
    ensures
        s@ == wire_step(e),
{
    match e {
        WireEvent::PleasePutThisOnWire(b) => WireStep::Write(b),
        WireEvent::Written(b, ok) => if ok { WireStep::Broadcast(EndpointEvent::ToWire(b)) } else { WireStep::Reconnect },
        WireEvent::ThisCameFromWire(b) => WireStep::Broadcast(EndpointEvent::FromWire(b)),
        WireEvent::ReadFailed => WireStep::Reconnect,
        WireEvent::PortGone => WireStep::Reconnect,
    }
}

} // verus!
