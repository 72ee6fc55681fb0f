use bytes::BytesMut;
use vstd::prelude::*;

use crate::text::owned;

verus! {

/// The growable byte buffer of the `bytes` crate, carried opaquely.
#[verifier::external_type_specification]
#[verifier::external_body]
pub struct ExBytesMut(bytes::BytesMut);

/// The UTF-8 error of the standard library, carried opaquely.
#[verifier::external_type_specification]
#[verifier::external_body]
pub struct ExFromUtf8Error(std::string::FromUtf8Error);

/// The bytes a `BytesMut` holds, in order.
pub uninterp spec fn buffer_contents(b: BytesMut) -> Seq<u8>;

/// `BytesMut::len`: the number of bytes held.
#[verifier::external_body]
fn buffer_len(b: &BytesMut) -> (n: usize)
    ensures
        n == buffer_contents(*b).len(),
{
    b.len()
}

/// Indexing a `BytesMut` (through its `Deref` to a byte slice): the byte at `i`.
/// Indexing panics past the end, which `requires` rules out.
#[verifier::external_body]
fn buffer_byte(b: &BytesMut, i: usize) -> (x: u8)
    requires
        i < buffer_contents(*b).len(),
    ensures
        x == buffer_contents(*b)[i as int],
{
    b[i]
}

/// `BytesMut::split_to`: the first `at` bytes are taken out and returned;
/// the buffer keeps the rest. It panics if `at > len`, which `requires` rules out.
#[verifier::external_body]
fn buffer_split_to(b: &mut BytesMut, at: usize) -> (front: BytesMut)
    requires
        at <= buffer_contents(*old(b)).len(),
    ensures
        buffer_contents(front) == buffer_contents(*old(b)).subrange(0, at as int),
        buffer_contents(*final(b)) == buffer_contents(*old(b)).subrange(at as int, buffer_contents(*old(b)).len() as int),
{
    b.split_to(at)
}

/// `Buf::advance` on a `BytesMut`: the first `cnt` bytes are dropped.
/// It panics if `cnt` exceeds the length, which `requires` rules out.
#[verifier::external_body]
fn buffer_advance(b: &mut BytesMut, cnt: usize)
    requires
        cnt <= buffer_contents(*old(b)).len(),
    ensures
        buffer_contents(*final(b)) == buffer_contents(*old(b)).subrange(cnt as int, buffer_contents(*old(b)).len() as int),
{
    bytes::Buf::advance(b, cnt)
}

/// `BytesMut::extend_from_slice`: the bytes are appended.
#[verifier::external_body]
fn buffer_extend(b: &mut BytesMut, extend: &[u8])
    ensures
        buffer_contents(*final(b)) == buffer_contents(*old(b)) + extend@,
{
    b.extend_from_slice(extend)
}

/// The bytes of a `BytesMut` (through its `Deref` to a byte slice), copied into a vector.
#[verifier::external_body]
fn buffer_to_vec(b: &BytesMut) -> (v: Vec<u8>)
    ensures
        v@ == buffer_contents(*b),
{
    b[..].to_vec()
}

/// `String::from_utf8`: the bytes as a string when they are valid UTF-8, else the error.
#[verifier::external_body]
fn string_from_utf8(bytes: Vec<u8>) -> (r: Result<String, std::string::FromUtf8Error>)
    ensures
        r is Ok <==> vstd::utf8::valid_utf8(bytes@),
        r is Ok ==> r->Ok_0@ == vstd::utf8::decode_utf8(bytes@),
{
    String::from_utf8(bytes)
}

/// This codec has a configurable delimiter character for reading,
/// and optionally adds a character to each line it encodes.
#[derive(Debug)]
pub struct LinesCodec {
    /// How far we have looked for a delimiter into the buffer.
    cursor: usize,
    /// How to delimit incoming byte streams.
    /// This delimiter is not included in the yielded frames.
    read_delimiter: u8,
    /// If provided, which byte to append when writing (encoding) messages.
    /// If `None`, forwards the data as-is.
    write_delimiter: Option<u8>,
    /// The serial port this codec reads, probed when the stream runs dry.
    serial_port_path: String,
}

/// The mathematical value of a [`LinesCodec`].
pub struct LinesCodecView {
    /// Bytes already looked at.
    pub cursor: nat,
    /// Read delimiter.
    pub read_delimiter: u8,
    /// Write delimiter.
    pub write_delimiter: Option<u8>,
    /// Serial port path.
    pub path: Seq<char>,
}

impl View for LinesCodec {
    type V = LinesCodecView;

    closed spec fn view(&self) -> LinesCodecView {
        LinesCodecView {
            cursor: self.cursor as nat,
            read_delimiter: self.read_delimiter,
            write_delimiter: self.write_delimiter,
            path: self.serial_port_path@,
        }
    }
}

/// What decoding found.
#[derive(Debug, PartialEq, Eq)]
pub enum DecodeOutcome {
    /// A whole frame, without its delimiter.
    Frame(Vec<u8>),
    /// No whole frame yet; more bytes are needed.
    NeedMore,
    /// The buffer is empty: the port may have gone away, and should be probed.
    MaybeDisconnected,
}

/// The mathematical value of a [`DecodeOutcome`].
pub enum DecodeOutcomeView {
    /// A frame.
    Frame(Seq<u8>),
    /// Need more.
    NeedMore,
    /// Probe the port.
    MaybeDisconnected,
}

impl View for DecodeOutcome {
    type V = DecodeOutcomeView;

    open spec fn view(&self) -> DecodeOutcomeView {
        match self {
            DecodeOutcome::Frame(v) => DecodeOutcomeView::Frame(v@),
            DecodeOutcome::NeedMore => DecodeOutcomeView::NeedMore,
            DecodeOutcome::MaybeDisconnected => DecodeOutcomeView::MaybeDisconnected,
        }
    }
}

/// Whether `p` is the first position at or after `from` holding the delimiter.
pub open spec fn is_first_delimiter(data: Seq<u8>, from: int, d: u8, p: int) -> bool {
    &&& from <= p < data.len()
    &&& data[p] == d
    &&& forall|q: int| from <= q < p ==> data[q] != d
}

/// Whether the delimiter occurs at or after `from`.
pub open spec fn has_delimiter(data: Seq<u8>, from: int, d: u8) -> bool {
    exists|p: int| from <= p < data.len() && data[p] == d
}

/// The first position at or after `from` holding the delimiter.
pub open spec fn first_delimiter(data: Seq<u8>, from: int, d: u8) -> int {
    choose|p: int| is_first_delimiter(data, from, d, p)
}

/// Decoding: the bytes before the first delimiter past the cursor form a frame,
/// and are taken out of the buffer with the delimiter; otherwise the whole
/// buffer has been looked at, and an empty buffer calls for probing the port.
pub open spec fn model_decode(c: LinesCodecView, data: Seq<u8>) -> (LinesCodecView, Seq<u8>, DecodeOutcomeView) {
    if has_delimiter(data, c.cursor as int, c.read_delimiter) {
        let p = first_delimiter(data, c.cursor as int, c.read_delimiter);
        (LinesCodecView { cursor: 0, ..c }, data.subrange(p + 1, data.len() as int), DecodeOutcomeView::Frame(data.subrange(0, p)))
    } else {
        (
            LinesCodecView { cursor: data.len(), ..c },
            data,
            if data.len() == 0 { DecodeOutcomeView::MaybeDisconnected } else { DecodeOutcomeView::NeedMore },
        )
    }
}

/// Encoding: the item, then the write delimiter if there is one.
pub open spec fn model_encode(c: LinesCodecView, data: Seq<u8>, item: Seq<u8>) -> Seq<u8> {
    match c.write_delimiter {
        Some(w) => data + item + seq![w],
        None => data + item,
    }
}

/// What decoding a string found.
#[derive(Debug)]
pub enum StringDecodeOutcome {
    /// A whole frame as text.
    Frame(String),
    /// No whole frame yet; more bytes are needed.
    NeedMore,
    /// The buffer is empty: the port may have gone away, and should be probed.
    MaybeDisconnected,
}

impl LinesCodec {
    /// Create a new codec.
    pub fn new(read_delimiter: u8, write_delimiter: Option<u8>, path: String) -> (c: Self)
        ensures
            c@ == (LinesCodecView { cursor: 0, read_delimiter, write_delimiter, path: path@ }),
    {
        LinesCodec { cursor: 0, read_delimiter, write_delimiter, serial_port_path: path }
    }

    /// Reads lines delimited by newlines, writes as is, for `/dev/ttyACM0`.
    pub fn default() -> (c: Self)
        ensures
            c@ == (LinesCodecView { cursor: 0, read_delimiter: 10u8, write_delimiter: None, path: "/dev/ttyACM0"@ }),
    {
        proof { reveal_strlit("/dev/ttyACM0"); }
        LinesCodec::new(10u8, None, owned("/dev/ttyACM0"))
    }

    /// How far the buffer has been looked at for a delimiter; decoding needs
    /// a buffer at least this long, which the buffer it last saw is.
    pub fn cursor(&self) -> (c: usize)
        ensures
            c == self@.cursor,
    {
        self.cursor
    }

    /// The serial port this codec reads.
    pub fn serial_port_path(&self) -> (p: &str)
        ensures
            p@ == self@.path,
    {
        self.serial_port_path.as_str()
    }

    /// A copy.
    pub fn duplicate(&self) -> (c: Self)
        ensures
            c@ == self@,
    {
        LinesCodec {
            cursor: self.cursor,
            read_delimiter: self.read_delimiter,
            write_delimiter: self.write_delimiter,
            serial_port_path: self.serial_port_path.clone(),
        }
    }

    /// A [`StringCodec`] reading strings through this codec: bad UTF-8 is either
    /// replaced (`lossy`) or an error.
    pub fn into_string_codec(self, lossy: bool) -> (s: StringCodec)
        ensures
            s.lossy() == lossy,
            s.wrapped() == self@,
    {
        StringCodec { lossy, wrapped: self }
    }

    /// Decode a frame from the buffer.
    pub fn decode(&mut self, src: &mut BytesMut) -> (r: DecodeOutcome)
        requires
            old(self)@.cursor <= buffer_contents(*old(src)).len(),
        ensures
            final(self)@ == model_decode(old(self)@, buffer_contents(*old(src))).0,
            buffer_contents(*final(src)) == model_decode(old(self)@, buffer_contents(*old(src))).1,
            r@ == model_decode(old(self)@, buffer_contents(*old(src))).2,
    {
        let ghost data = buffer_contents(*src);
        let ghost c0 = self@;
        let read_to = buffer_len(src);
        let mut i = self.cursor;
        while i < read_to
            invariant
                self.cursor <= i <= read_to,
                read_to == data.len(),
                data == buffer_contents(*src),
                data == buffer_contents(*old(src)),
                self@ == c0,
                c0 == old(self)@,
                forall|q: int| self.cursor <= q < i ==> data[q] != self.read_delimiter,
            decreases read_to - i,
        {
            if buffer_byte(src, i) == self.read_delimiter {
                proof {
                    assert(is_first_delimiter(data, self.cursor as int, self.read_delimiter, i as int));
                    let p = first_delimiter(data, self.cursor as int, self.read_delimiter);
                    assert(is_first_delimiter(data, self.cursor as int, self.read_delimiter, p));
                    if p < i {
                        assert(data[p] != self.read_delimiter);
                    }
                    if p > i {
                        assert(data[i as int] != self.read_delimiter);
                    }
                }
                self.cursor = 0;
                let line = buffer_split_to(src, i);
                buffer_advance(src, 1);
                proof {
                    assert(buffer_contents(*src) =~= data.subrange(i + 1, data.len() as int));
                    assert(self@ == (LinesCodecView { cursor: 0, ..c0 }));
                }
                return DecodeOutcome::Frame(buffer_to_vec(&line));
            }
            i += 1;
        }
        self.cursor = read_to;
        proof {
            if has_delimiter(data, c0.cursor as int, c0.read_delimiter) {
                let p = choose|p: int| c0.cursor <= p < data.len() && data[p] == c0.read_delimiter;
                assert(data[p] != c0.read_delimiter);
            }
            assert(self@ == (LinesCodecView { cursor: data.len(), ..c0 }));
        }
        if read_to == 0 {
            DecodeOutcome::MaybeDisconnected
        } else {
            DecodeOutcome::NeedMore
        }
    }

    /// Encode an item: it is appended, followed by the write delimiter if any.
    pub fn encode(&mut self, item: Vec<u8>, dst: &mut BytesMut)
        ensures
            final(self)@ == old(self)@,
            buffer_contents(*final(dst)) == model_encode(old(self)@, buffer_contents(*old(dst)), item@),
    {
        buffer_extend(dst, item.as_slice());
        match self.write_delimiter {
            Some(character) => {
                let one: [u8; 1] = [character];
                buffer_extend(dst, one.as_slice());
                proof {
                    assert(one@ =~= seq![character]);
                }
            },
            None => {},
        }
    }
}

/// This does the same thing as the underlying [LinesCodec].
/// The difference is that it reads strings, and it is configurable whether bad utf8
/// should result in an error, or be replaced with some lossy character.
#[derive(Debug)]
pub struct StringCodec {
    lossy: bool,
    wrapped: LinesCodec,
}

impl StringCodec {
    /// Whether bad UTF-8 is replaced rather than an error.
    pub closed spec fn lossy(&self) -> bool {
        self.lossy
    }

    /// The line codec underneath.
    pub closed spec fn wrapped(&self) -> LinesCodecView {
        self.wrapped@
    }

    /// Decode a line as text.
    pub fn decode(&mut self, src: &mut BytesMut) -> (r: Result<StringDecodeOutcome, std::string::FromUtf8Error>)
        requires
            old(self).wrapped().cursor <= buffer_contents(*old(src)).len(),
        ensures
            final(self).lossy() == old(self).lossy(),
            final(self).wrapped() == model_decode(old(self).wrapped(), buffer_contents(*old(src))).0,
            buffer_contents(*final(src)) == model_decode(old(self).wrapped(), buffer_contents(*old(src))).1,
            match model_decode(old(self).wrapped(), buffer_contents(*old(src))).2 {
                DecodeOutcomeView::Frame(bytes) =>
                    if old(self).lossy() {
                        r is Ok && r->Ok_0 is Frame && r->Ok_0->Frame_0@ == crate::serial::lossy_utf8(bytes)
                            && (vstd::utf8::valid_utf8(bytes) ==> r->Ok_0->Frame_0@ == vstd::utf8::decode_utf8(bytes))
                    } else {
                        (r is Ok <==> vstd::utf8::valid_utf8(bytes))
                            && (r is Ok ==> r->Ok_0 is Frame && r->Ok_0->Frame_0@ == vstd::utf8::decode_utf8(bytes))
                    },
                DecodeOutcomeView::NeedMore => r is Ok && r->Ok_0 is NeedMore,
                DecodeOutcomeView::MaybeDisconnected => r is Ok && r->Ok_0 is MaybeDisconnected,
            },
    {
        match self.wrapped.decode(src) {
            DecodeOutcome::Frame(bytes) => {
                if self.lossy {
                    Ok(StringDecodeOutcome::Frame(crate::serial::from_utf8_lossy(bytes.as_slice())))
                } else {
                    match string_from_utf8(bytes) {
                        Ok(s) => Ok(StringDecodeOutcome::Frame(s)),
                        Err(e) => Err(e),
                    }
                }
            },
            DecodeOutcome::NeedMore => Ok(StringDecodeOutcome::NeedMore),
            DecodeOutcome::MaybeDisconnected => Ok(StringDecodeOutcome::MaybeDisconnected),
        }
    }

    /// Encode a string as the line codec encodes its UTF-8 bytes: they are
    /// appended, followed by the write delimiter if any.
    pub fn encode_string(&mut self, item: String, dst: &mut BytesMut)
        ensures
            final(self).lossy() == old(self).lossy(),
            final(self).wrapped() == old(self).wrapped(),
            buffer_contents(*final(dst)) == model_encode(old(self).wrapped(), buffer_contents(*old(dst)), vstd::utf8::encode_utf8(item@)),
    {
        buffer_extend(dst, item.as_str().as_bytes());
        match self.wrapped.write_delimiter {
            Some(character) => {
                let one: [u8; 1] = [character];
                buffer_extend(dst, one.as_slice());
                proof {
                    assert(one@ =~= seq![character]);
                }
            },
            None => {},
        }
    }

    /// Encode bytes as the line codec does.
    pub fn encode_bytes(&mut self, item: Vec<u8>, dst: &mut BytesMut)
        ensures
            final(self).lossy() == old(self).lossy(),
            final(self).wrapped() == old(self).wrapped(),
            buffer_contents(*final(dst)) == model_encode(old(self).wrapped(), buffer_contents(*old(dst)), item@),
    {
        self.wrapped.encode(item, dst)
    }
}

/// Encoding an item holding no delimiter and decoding it again gives the item
/// back and leaves the buffer as it was, when the codec writes the delimiter it reads.
pub proof fn law_encode_then_decode(c: LinesCodecView, before: Seq<u8>, item: Seq<u8>)
    requires
        c.write_delimiter == Some(c.read_delimiter),
        c.cursor == 0,
        !has_delimiter(before, 0, c.read_delimiter),
        !has_delimiter(item, 0, c.read_delimiter),
    ensures
        model_decode(c, model_encode(c, before, item)).2 == DecodeOutcomeView::Frame(before + item),
        model_decode(c, model_encode(c, before, item)).1 == Seq::<u8>::empty(),
        model_decode(c, model_encode(c, before, item)).0 == c,
{
    let data = model_encode(c, before, item);
    let d = c.read_delimiter;
    let p = (before.len() + item.len()) as int;
    assert(data == before + item + seq![d]);
    assert forall|q: int| 0 <= q < p implies data[q] != d by {
        if q < before.len() {
            assert(data[q] == before[q]);
        } else {
            assert(data[q] == item[q - before.len()]);
        }
    }
    assert(is_first_delimiter(data, 0, d, p));
    assert(has_delimiter(data, 0, d));
    let f = first_delimiter(data, 0, d);
    assert(is_first_delimiter(data, 0, d, f));
    if f < p {
        assert(data[f] != d);
    }
    assert(f == p);
    assert(data.subrange(0, p) =~= before + item);
    assert(data.subrange(p + 1, data.len() as int) =~= Seq::<u8>::empty());
}

/// When the delimiter occurs at or after `from`, there is a first such position.
proof fn lemma_first_delimiter(data: Seq<u8>, from: int, d: u8, w: int)
    requires
        from <= w < data.len(),
        data[w] == d,
    ensures
        is_first_delimiter(data, from, d, first_delimiter(data, from, d)),
    decreases w - from,
{
    if exists|q: int| from <= q < w && data[q] == d {
        let q = choose|q: int| from <= q < w && data[q] == d;
        lemma_first_delimiter(data, from, d, q);
    } else {
        assert(is_first_delimiter(data, from, d, w));
    }
}

/// Whether a codec state fits a buffer: the bytes it has looked at are in the
/// buffer and hold no delimiter. A fresh codec fits any buffer, and decoding
/// keeps the codec fitting what is left (see [`law_decode_takes_the_first_line`]).
pub open spec fn fits(c: LinesCodecView, data: Seq<u8>) -> bool {
    c.cursor <= data.len() && forall|q: int| 0 <= q < c.cursor ==> data[q] != c.read_delimiter
}

/// Decoding a buffer with a fitting codec: when the buffer holds the
/// delimiter, the frame is the bytes before its first delimiter, the rest
/// after it is left, and the codec starts over (cursor 0); otherwise nothing is
/// taken, the codec remembers having looked at the whole buffer, and an empty
/// buffer is reported as a possible disconnection. Either way the codec fits
/// what is left, so the next call is again of this kind.
pub proof fn law_decode_takes_the_first_line(c: LinesCodecView, data: Seq<u8>)
    requires
        fits(c, data),
    ensures ({
        let r = model_decode(c, data);
        let d = c.read_delimiter;
        &&& (exists|q: int| 0 <= q < data.len() && data[q] == d) ==> exists|p: int| {
            &&& 0 <= p < data.len()
            &&& data[p] == d
            &&& (forall|q: int| 0 <= q < p ==> data[q] != d)
            &&& r.2 == DecodeOutcomeView::Frame(data.subrange(0, p))
            &&& r.1 == data.subrange(p + 1, data.len() as int)
            &&& r.0.cursor == 0
        }
        &&& !(exists|q: int| 0 <= q < data.len() && data[q] == d) ==> {
            &&& r.1 == data
            &&& r.0.cursor == data.len()
            &&& r.2 == (if data.len() == 0 { DecodeOutcomeView::MaybeDisconnected } else { DecodeOutcomeView::NeedMore })
        }
        &&& r.0.read_delimiter == c.read_delimiter
        &&& r.0.write_delimiter == c.write_delimiter
        &&& r.0.path == c.path
        &&& fits(r.0, r.1)
    }),
{
    let d = c.read_delimiter;
    if exists|q: int| 0 <= q < data.len() && data[q] == d {
        let q = choose|q: int| 0 <= q < data.len() && data[q] == d;
        assert(q >= c.cursor);
        assert(has_delimiter(data, c.cursor as int, d));
        lemma_first_delimiter(data, c.cursor as int, d, q);
        let p = first_delimiter(data, c.cursor as int, d);
        assert(is_first_delimiter(data, c.cursor as int, d, p));
        assert forall|x: int| 0 <= x < p implies data[x] != d by {
            if x < c.cursor {
            } else {
                assert(c.cursor <= x < p);
            }
        }
    } else {
        assert(!has_delimiter(data, c.cursor as int, d));
    }
}

/// Two lines in a row come out one after the other: decoding with a fitting
/// codec gives the first, and decoding what is left with the codec as it then
/// is gives the second.
pub proof fn law_lines_come_out_in_turn(c: LinesCodecView, a: Seq<u8>, b: Seq<u8>, tail: Seq<u8>)
    requires
        c.cursor == 0,
        forall|q: int| 0 <= q < a.len() ==> a[q] != c.read_delimiter,
        forall|q: int| 0 <= q < b.len() ==> b[q] != c.read_delimiter,
    ensures ({
        let d = c.read_delimiter;
        let data = a + seq![d] + b + seq![d] + tail;
        let first = model_decode(c, data);
        let second = model_decode(first.0, first.1);
        &&& first.2 == DecodeOutcomeView::Frame(a)
        &&& first.1 == b + seq![d] + tail
        &&& second.2 == DecodeOutcomeView::Frame(b)
        &&& second.1 == tail
    }),
{
    let d = c.read_delimiter;
    let data = a + seq![d] + b + seq![d] + tail;
    law_decode_takes_the_first_line(c, data);
    assert(data[a.len() as int] == d);
    let first = model_decode(c, data);
    let p = choose|p: int| 0 <= p < data.len() && data[p] == d && (forall|q: int| 0 <= q < p ==> data[q] != d)
        && first.2 == DecodeOutcomeView::Frame(data.subrange(0, p)) && first.1 == data.subrange(p + 1, data.len() as int)
        && first.0.cursor == 0;
    if p < a.len() {
        assert(data[p] == a[p]);
    }
    if p > a.len() {
        assert(data[a.len() as int] != d);
    }
    assert(p == a.len());
    assert(data.subrange(0, p) =~= a);
    let rest = b + seq![d] + tail;
    assert(data.subrange(p + 1, data.len() as int) =~= rest);
    law_decode_takes_the_first_line(first.0, rest);
    assert(rest[b.len() as int] == d);
    let second = model_decode(first.0, rest);
    let p2 = choose|p: int| 0 <= p < rest.len() && rest[p] == d && (forall|q: int| 0 <= q < p ==> rest[q] != d)
        && second.2 == DecodeOutcomeView::Frame(rest.subrange(0, p)) && second.1 == rest.subrange(p + 1, rest.len() as int)
        && second.0.cursor == 0;
    if p2 < b.len() {
        assert(rest[p2] == b[p2]);
    }
    if p2 > b.len() {
        assert(rest[b.len() as int] != d);
    }
    assert(p2 == b.len());
    assert(rest.subrange(0, p2) =~= b);
    assert(rest.subrange(p2 + 1, rest.len() as int) =~= tail);
}

} // verus!
