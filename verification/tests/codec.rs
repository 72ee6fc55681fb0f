use bytes::BytesMut;
use serial_keel::serial::codecs::lines::{DecodeOutcome, LinesCodec, StringDecodeOutcome};

#[test]
fn lines_are_decoded_one_by_one() {
    let mut codec = LinesCodec::default();
    let mut buf = BytesMut::from(&b"first\nsecond\npart"[..]);
    assert_eq!(codec.decode(&mut buf), DecodeOutcome::Frame(b"first".to_vec()));
    assert_eq!(codec.decode(&mut buf), DecodeOutcome::Frame(b"second".to_vec()));
    assert_eq!(codec.decode(&mut buf), DecodeOutcome::NeedMore);
    assert_eq!(&buf[..], b"part");
    buf.extend_from_slice(b"ial\n");
    assert_eq!(codec.decode(&mut buf), DecodeOutcome::Frame(b"partial".to_vec()));
    assert!(buf.is_empty());
    assert_eq!(codec.decode(&mut buf), DecodeOutcome::MaybeDisconnected);
}

#[test]
fn encoding_appends_the_write_delimiter() {
    let mut codec = LinesCodec::new(b'\n', Some(b'\r'), "COM1".to_string());
    let mut buf = BytesMut::new();
    codec.encode(b"abc".to_vec(), &mut buf);
    assert_eq!(&buf[..], b"abc\r");

    let mut plain = LinesCodec::default();
    plain.encode(b"abc".to_vec(), &mut buf);
    assert_eq!(&buf[..], b"abc\rabc");
}

#[test]
fn encode_then_decode_gives_the_item_back() {
    let mut codec = LinesCodec::new(b';', Some(b';'), "COM1".to_string());
    let mut buf = BytesMut::new();
    codec.encode(b"hello".to_vec(), &mut buf);
    assert_eq!(codec.decode(&mut buf), DecodeOutcome::Frame(b"hello".to_vec()));
    assert!(buf.is_empty());
}

#[test]
fn string_codec_lossy_and_strict() {
    let mut lossy = LinesCodec::default().into_string_codec(true);
    let mut buf = BytesMut::from(&b"ok\xff\n"[..]);
    match lossy.decode(&mut buf) {
        Ok(StringDecodeOutcome::Frame(s)) => assert_eq!(s, "ok\u{FFFD}"),
        other => panic!("unexpected {other:?}"),
    }

    let mut strict = LinesCodec::default().into_string_codec(false);
    let mut buf = BytesMut::from(&b"ok\xff\n"[..]);
    assert!(strict.decode(&mut buf).is_err());
    let mut buf = BytesMut::from(&b"fine\n"[..]);
    match strict.decode(&mut buf) {
        Ok(StringDecodeOutcome::Frame(s)) => assert_eq!(s, "fine"),
        other => panic!("unexpected {other:?}"),
    }
    let mut out = BytesMut::new();
    strict.encode_string("text".to_string(), &mut out);
    assert_eq!(&out[..], b"text");
}

#[test]
fn codec_keeps_its_path() {
    let codec = LinesCodec::new(b'\n', None, "/dev/ttyUSB0".to_string());
    assert_eq!(codec.serial_port_path(), "/dev/ttyUSB0");
    assert_eq!(LinesCodec::default().serial_port_path(), "/dev/ttyACM0");
}

#[test]
fn string_codec_encodes_bytes_with_the_write_delimiter() {
    let mut codec = LinesCodec::new(b'\n', Some(b'\n'), "COM3".to_string()).into_string_codec(false);
    let mut out = BytesMut::from(&b"x"[..]);
    codec.encode_bytes(b"raw".to_vec(), &mut out);
    assert_eq!(&out[..], b"xraw\n");
}

#[test]
fn string_codec_writes_the_delimiter_as_the_line_codec_does() {
    let mut s = LinesCodec::new(b'\n', Some(b'\n'), "COM1".to_string()).into_string_codec(false);
    let mut dst = BytesMut::new();
    s.encode_string("hi".to_string(), &mut dst);
    assert_eq!(&dst[..], b"hi\n");
    let mut lines = LinesCodec::new(b'\n', Some(b'\n'), "COM1".to_string());
    let mut same = BytesMut::new();
    lines.encode(b"hi".to_vec(), &mut same);
    assert_eq!(&dst[..], &same[..]);
}
