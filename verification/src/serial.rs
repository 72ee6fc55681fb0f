use vstd::prelude::*;

use crate::text::owned;

/// Codecs for encoding/decoding messages to/from wire.
pub mod codecs;

/// Serial port settings, probing and the connection's steps.
pub mod serial_port;

verus! {

/// The message data type used for serial.
#[derive(Debug, PartialEq, Eq, PartialOrd, Ord)]
pub struct SerialMessage(String);

/// The message data type used for serial bytes.
pub type SerialMessageBytes = Vec<u8>;

/// What `String::from_utf8_lossy` makes of some bytes.
pub uninterp spec fn lossy_utf8(bytes: Seq<u8>) -> Seq<char>;

/// Decode bytes as UTF-8, replacing invalid sequences (`String::from_utf8_lossy`).
/// Its documentation promises that valid UTF-8 is decoded as is; what replaces
/// invalid sequences is named by [`lossy_utf8`] and left unsaid here.
#[verifier::external_body]
pub(crate) fn from_utf8_lossy(bytes: &[u8]) -> (s: String)
    ensures
        s@ == lossy_utf8(bytes@),
        vstd::utf8::valid_utf8(bytes@) ==> s@ == vstd::utf8::decode_utf8(bytes@),
{
    String::from_utf8_lossy(bytes).into_owned()
}

/// Whether a character has the Unicode `White_Space` property, which is what
/// `char::is_whitespace` and `str::trim` go by.
pub open spec fn is_white_space(c: char) -> bool {
    ||| ('\u{9}' <= c && c <= '\u{d}')
    ||| c == ' '
    ||| c == '\u{85}'
    ||| c == '\u{a0}'
    ||| c == '\u{1680}'
    ||| ('\u{2000}' <= c && c <= '\u{200a}')
    ||| c == '\u{2028}'
    ||| c == '\u{2029}'
    ||| c == '\u{202f}'
    ||| c == '\u{205f}'
    ||| c == '\u{3000}'
}

/// The text without its leading white space.
pub open spec fn trim_start(s: Seq<char>) -> Seq<char>
    decreases s.len(),
{
    if s.len() > 0 && is_white_space(s[0]) {
        trim_start(s.drop_first())
    } else {
        s
    }
}

/// The text without its trailing white space.
pub open spec fn trim_end(s: Seq<char>) -> Seq<char>
    decreases s.len(),
{
    if s.len() > 0 && is_white_space(s.last()) {
        trim_end(s.drop_last())
    } else {
        s
    }
}

/// How a message is shown to people: its first 48 characters, trimmed of white space.
pub open spec fn display_message(s: Seq<char>) -> Seq<char> {
    trim_end(trim_start(s.take(crate::text::min_nat(s.len(), 48) as int)))
}

fn white_space(c: char) -> (b: bool)
    ensures
        b == is_white_space(c),
{
    ('\u{9}' <= c && c <= '\u{d}') || c == ' ' || c == '\u{85}' || c == '\u{a0}' || c == '\u{1680}'
        || ('\u{2000}' <= c && c <= '\u{200a}') || c == '\u{2028}' || c == '\u{2029}'
        || c == '\u{202f}' || c == '\u{205f}' || c == '\u{3000}'
}

impl View for SerialMessage {
    type V = Seq<char>;

    closed spec fn view(&self) -> Seq<char> {
        self.0@
    }
}

impl SerialMessage {
    /// Create a serial message from bytes, replacing any bad utf8 bytes.
    pub fn new_lossy(bytes: &[u8]) -> (m: Self)
        ensures
            m@ == lossy_utf8(bytes@),
            vstd::utf8::valid_utf8(bytes@) ==> m@ == vstd::utf8::decode_utf8(bytes@),
    {
        SerialMessage(from_utf8_lossy(bytes))
    }

    /// A message with the given text.
    pub fn from_str(s: &str) -> (m: Self)
        ensures
            m@ == s@,
    {
        SerialMessage(owned(s))
    }

    /// Turn the message (utf8) into bytes.
    pub fn into_bytes(self) -> (bytes: Vec<u8>)
        ensures
            bytes@ == vstd::utf8::encode_utf8(self@),
    {
        self.0.as_str().as_bytes_vec()
    }

    /// Borrowed form.
    pub fn as_str(&self) -> (s: &str)
        ensures
            s@ == self@,
    {
        self.0.as_str()
    }

    /// A copy.
    pub fn duplicate(&self) -> (m: Self)
        ensures
            m@ == self@,
    {
        SerialMessage(self.0.clone())
    }

    /// As shown to people: at most the first 48 characters, trimmed of white space.
    pub fn display(&self) -> (d: String)
        ensures
            d@ == display_message(self@),
    {
        let text = self.0.as_str();
        let n = text.unicode_len();
        let k: usize = if n <= 48 { n } else { 48 };
        let ghost t = text@.take(k as int);
        let mut i: usize = 0;
        proof {
            assert(t.subrange(0, k as int) =~= t);
        }
        while i < k && white_space(text.get_char(i))
            invariant
                k <= n,
                n == text@.len(),
                t == text@.take(k as int),
                i <= k,
                trim_start(t) == trim_start(t.subrange(i as int, k as int)),
            decreases k - i,
        {
            proof {
                assert(t.subrange(i as int, k as int).drop_first() =~= t.subrange(i + 1, k as int));
            }
            i += 1;
        }
        proof {
            if i < k {
                assert(t.subrange(i as int, k as int)[0] == t[i as int]);
            } else {
                assert(t.subrange(i as int, k as int) =~= Seq::<char>::empty());
            }
        }
        let mut j: usize = k;
        while j > i && white_space(text.get_char(j - 1))
            invariant
                k <= n,
                n == text@.len(),
                t == text@.take(k as int),
                i <= j <= k,
                trim_end(trim_start(t)) == trim_end(t.subrange(i as int, j as int)),
                i == k || !is_white_space(t[i as int]),
            decreases j - i,
        {
            proof {
                assert(t.subrange(i as int, j as int).drop_last() =~= t.subrange(i as int, j - 1));
            }
            j -= 1;
        }
        proof {
            assert(t.subrange(i as int, j as int) =~= text@.subrange(i as int, j as int));
        }
        owned(text.substring_char(i, j))
    }
}

impl Clone for SerialMessage {
    fn clone(&self) -> (m: Self)
        ensures
            m@ == self@,
    {
        self.duplicate()
    }
}

/// The bytes of a message are valid UTF-8 and decode back to the message: a
/// message turned into bytes and read back with `new_lossy` is the same message.
pub proof fn law_message_bytes_round_trip(text: Seq<char>)
    ensures
        vstd::utf8::valid_utf8(vstd::utf8::encode_utf8(text)),
        vstd::utf8::decode_utf8(vstd::utf8::encode_utf8(text)) == text,
{
    vstd::utf8::encode_utf8_valid_utf8(text);
    vstd::utf8::encode_utf8_decode_utf8(text);
}

} // verus!
