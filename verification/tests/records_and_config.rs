use csv_async::{
    ByteRecord, ErrorKind, Position, ReaderBuilder, StringRecord, Terminator, Trim,
};

fn string_rec(fields: &[&str]) -> StringRecord {
    let mut r = StringRecord::new();
    for f in fields {
        r.push_field(f.to_string());
    }
    r
}

fn byte_rec(fields: &[&[u8]]) -> ByteRecord {
    let mut r = ByteRecord::new();
    for f in fields {
        r.push_field(f.to_vec());
    }
    r
}

// Trimming an already-trimmed byte row changes nothing.
#[test]
fn trim_byte_record_idempotent() {
    let mut rec = byte_rec(&[b"  foo\t", b" b ar ", b"", b"\t\t"]);
    rec.trim();
    let mut again = rec.clone();
    again.trim();
    assert_eq!(rec.len(), again.len());
    for i in 0..rec.len() {
        assert_eq!(rec.get(i).unwrap(), again.get(i).unwrap());
    }
    assert_eq!(b"foo", rec.get(0).unwrap().as_slice());
    assert_eq!(b"b ar", rec.get(1).unwrap().as_slice());
    assert_eq!(b"", rec.get(2).unwrap().as_slice());
    assert_eq!(b"", rec.get(3).unwrap().as_slice());
}

// Trimming an already-trimmed string row changes nothing, including for
// Unicode whitespace that byte-level trimming cannot see.
#[test]
fn trim_string_record_idempotent() {
    let mut rec = string_rec(&["\u{a0}foo\u{2003}", " x y ", ""]);
    rec.trim();
    let mut again = rec.clone();
    again.trim();
    assert_eq!(rec.len(), again.len());
    for i in 0..rec.len() {
        assert_eq!(rec.get(i).unwrap(), again.get(i).unwrap());
    }
    assert_eq!("foo", rec.get(0).unwrap());
    assert_eq!("x y", rec.get(1).unwrap());
    assert_eq!("", rec.get(2).unwrap());
}

// String records shed Unicode whitespace (here a non-breaking space) that
// byte records keep.
#[test]
fn unicode_whitespace_trimming() {
    let data = "h1,h2\n\u{a0}a\u{a0},\tb\t".as_bytes().to_vec();
    let mut builder = ReaderBuilder::new();
    builder.trim(Trim::Fields);
    let mut rdr = builder.from_bytes(data.clone());
    let mut brec = ByteRecord::new();
    assert!(rdr.read_byte_record(&mut brec).unwrap());
    // ASCII trimming strips the tabs but not the non-breaking space bytes.
    assert_eq!("\u{a0}a\u{a0}".as_bytes(), brec.get(0).unwrap().as_slice());
    assert_eq!(b"b", brec.get(1).unwrap().as_slice());

    let mut rdr = builder.from_bytes(data);
    let mut srec = StringRecord::new();
    assert!(rdr.read_record(&mut srec).unwrap());
    assert_eq!("a", srec.get(0).unwrap());
    assert_eq!("b", srec.get(1).unwrap());
}

// A flexible reader accepts rows of any widths: no width error, ever.
#[test]
fn flexible_reader_never_errors_on_widths() {
    let data = b"a\nb,c\nd,e,f,g\n\nh,i".to_vec();
    let mut builder = ReaderBuilder::new();
    builder.has_headers(false);
    builder.flexible(true);
    let mut rdr = builder.from_bytes(data);
    let mut rec = ByteRecord::new();
    let mut widths = Vec::new();
    while rdr.read_byte_record(&mut rec).unwrap() {
        widths.push(rec.len());
    }
    assert_eq!(widths, vec![1, 2, 4, 2]);
}

// Seeking to the position a row was read at reproduces that row exactly.
#[test]
fn seek_position_roundtrip() {
    let data = b"foo,bar\n1,2\n33,44\n555,666".to_vec();
    let mut builder = ReaderBuilder::new();
    builder.has_headers(false);
    let mut rdr = builder.from_bytes(data);
    let mut rec = StringRecord::new();
    assert!(rdr.read_record(&mut rec).unwrap());
    assert!(rdr.read_record(&mut rec).unwrap());
    assert!(rdr.read_record(&mut rec).unwrap());
    let pos = rec.position().unwrap();
    let f0 = rec.get(0).unwrap().to_string();
    let f1 = rec.get(1).unwrap().to_string();
    rdr.seek(pos).unwrap();
    let mut again = StringRecord::new();
    assert!(rdr.read_record(&mut again).unwrap());
    assert_eq!(f0, again.get(0).unwrap());
    assert_eq!(f1, again.get(1).unwrap());
    assert_eq!(Some(pos), again.position());
}

// Manually set headers override the cached ones, unconditionally.
#[test]
fn set_headers_overrides() {
    let data = b"foo,bar\na,b".to_vec();
    let mut rdr = ReaderBuilder::new().from_bytes(data);
    assert_eq!("foo", rdr.headers().unwrap().get(0).unwrap());
    rdr.set_headers(string_rec(&["x", "y"]));
    let h = rdr.headers().unwrap();
    assert_eq!("x", h.get(0).unwrap());
    assert_eq!("y", h.get(1).unwrap());
    let bh = rdr.byte_headers().unwrap();
    assert_eq!(b"x", bh.get(0).unwrap().as_slice());

    rdr.set_byte_headers(byte_rec(&[b"p", b"q"]));
    assert_eq!("p", rdr.headers().unwrap().get(0).unwrap());
}

// The validating conversion reports the first invalid field and how many of
// its bytes are valid, and hands the bytes back unchanged.
#[test]
fn from_byte_record_utf8() {
    let ok = StringRecord::from_byte_record(byte_rec(&[b"ab", b"\xE2\x98\x83"])).unwrap();
    assert_eq!("ab", ok.get(0).unwrap());
    assert_eq!("\u{2603}", ok.get(1).unwrap());

    let err = StringRecord::from_byte_record(byte_rec(&[b"ab", b"cd\xFFe", b"f"])).unwrap_err();
    assert_eq!(1, err.utf8_error().field());
    assert_eq!(2, err.utf8_error().valid_up_to());
    let back = err.into_byte_record();
    assert_eq!(b"cd\xFFe", back.get(1).unwrap().as_slice());
}

// Encoding a string record as bytes and validating it back round-trips.
#[test]
fn string_byte_round_trip() {
    let rec = string_rec(&["caf\u{e9}", "", "snow\u{2603}"]);
    let bytes = rec.clone().into_byte_record();
    assert_eq!("caf\u{e9}".as_bytes(), bytes.get(0).unwrap().as_slice());
    let again = StringRecord::from_byte_record(bytes).unwrap();
    assert_eq!(rec.len(), again.len());
    for i in 0..rec.len() {
        assert_eq!(rec.get(i).unwrap(), again.get(i).unwrap());
    }
}

// Basic record editing: push, get, clear, position.
#[test]
fn byte_record_basics() {
    let mut rec = ByteRecord::new();
    assert!(rec.is_empty());
    assert!(rec.get(0).is_none());
    rec.push_field(b"one".to_vec());
    rec.push_field(Vec::new());
    assert_eq!(2, rec.len());
    assert_eq!(b"one", rec.get(0).unwrap().as_slice());
    assert_eq!(b"", rec.get(1).unwrap().as_slice());
    assert_eq!(None, rec.position());
    let mut p = Position::new();
    p.set_byte(7);
    rec.set_position(Some(p));
    assert_eq!(7, rec.position().unwrap().byte());
    rec.clear();
    assert!(rec.is_empty());
    assert_eq!(7, rec.position().unwrap().byte());
}

// The delimiter knob drives the tokenizer configuration.
#[test]
fn configured_delimiter() {
    let mut builder = ReaderBuilder::new();
    builder.has_headers(false);
    builder.delimiter(b';');
    let mut rdr = builder.from_bytes(b"a;b,c;d".to_vec());
    let mut rec = ByteRecord::new();
    assert!(rdr.read_byte_record(&mut rec).unwrap());
    assert_eq!(3, rec.len());
    assert_eq!(b"a", rec.get(0).unwrap().as_slice());
    assert_eq!(b"b,c", rec.get(1).unwrap().as_slice());
    assert_eq!(b"d", rec.get(2).unwrap().as_slice());
}

// A custom terminator splits records; CRLF handling is the default.
#[test]
fn configured_terminator() {
    let mut builder = ReaderBuilder::new();
    builder.has_headers(false);
    builder.terminator(Terminator::Any(b'$'));
    let mut rdr = builder.from_bytes(b"a,b$c,d".to_vec());
    let mut rec = ByteRecord::new();
    assert!(rdr.read_byte_record(&mut rec).unwrap());
    assert_eq!(b"a", rec.get(0).unwrap().as_slice());
    assert!(rdr.read_byte_record(&mut rec).unwrap());
    assert_eq!(b"c", rec.get(0).unwrap().as_slice());
    assert!(!rdr.read_byte_record(&mut rec).unwrap());
}

// Quotes, escapes and comments are all forwarded to the tokenizer.
#[test]
fn configured_quote_escape_comment() {
    let mut builder = ReaderBuilder::new();
    builder.has_headers(false);
    builder.quote(b'\'');
    let mut rdr = builder.from_bytes(b"'a,b',c".to_vec());
    let mut rec = ByteRecord::new();
    assert!(rdr.read_byte_record(&mut rec).unwrap());
    assert_eq!(b"a,b", rec.get(0).unwrap().as_slice());
    assert_eq!(b"c", rec.get(1).unwrap().as_slice());

    let mut builder = ReaderBuilder::new();
    builder.has_headers(false);
    builder.escape(Some(b'\\'));
    let mut rdr = builder.from_bytes(b"\"x\\\"y\",z".to_vec());
    assert!(rdr.read_byte_record(&mut rec).unwrap());
    assert_eq!(b"x\"y", rec.get(0).unwrap().as_slice());

    let mut builder = ReaderBuilder::new();
    builder.has_headers(false);
    builder.comment(Some(b'#'));
    let mut rdr = builder.from_bytes(b"#skip me\na,b".to_vec());
    assert!(rdr.read_byte_record(&mut rec).unwrap());
    assert_eq!(b"a", rec.get(0).unwrap().as_slice());
}

// Disabling quoting reads quote characters as plain bytes; disabling double
// quotes stops treating doubled quotes as escapes.
#[test]
fn configured_quoting_toggles() {
    let mut rec = ByteRecord::new();
    let mut builder = ReaderBuilder::new();
    builder.has_headers(false);
    builder.quoting(false);
    let mut rdr = builder.from_bytes(b"\"a,b".to_vec());
    assert!(rdr.read_byte_record(&mut rec).unwrap());
    assert_eq!(b"\"a", rec.get(0).unwrap().as_slice());
    assert_eq!(b"b", rec.get(1).unwrap().as_slice());

    let mut builder = ReaderBuilder::new();
    builder.has_headers(false);
    builder.double_quote(false);
    let mut rdr = builder.from_bytes(b"\"x\"\"y\"".to_vec());
    assert!(rdr.read_byte_record(&mut rec).unwrap());
    assert_eq!(b"x\"y\"", rec.get(0).unwrap().as_slice());
}

// The ASCII preset uses the unit and record separators.
#[test]
fn configured_ascii_preset() {
    let mut builder = ReaderBuilder::new();
    builder.has_headers(false);
    builder.ascii();
    let mut rdr = builder.from_bytes(b"a\x1Fb\x1Ec\x1Fd".to_vec());
    let mut rec = ByteRecord::new();
    assert!(rdr.read_byte_record(&mut rec).unwrap());
    assert_eq!(b"a", rec.get(0).unwrap().as_slice());
    assert_eq!(b"b", rec.get(1).unwrap().as_slice());
    assert!(rdr.read_byte_record(&mut rec).unwrap());
    assert_eq!(b"c", rec.get(0).unwrap().as_slice());
}

// Trim policy selectors.
#[test]
fn trim_policy_selectors() {
    assert!(!Trim::Preserve.should_trim_fields());
    assert!(!Trim::Preserve.should_trim_headers());
    assert!(!Trim::Headers.should_trim_fields());
    assert!(Trim::Headers.should_trim_headers());
    assert!(Trim::Fields.should_trim_fields());
    assert!(!Trim::Fields.should_trim_headers());
    assert!(Trim::All.should_trim_fields());
    assert!(Trim::All.should_trim_headers());
    assert_eq!(Trim::default(), Trim::Preserve);
}

// A reader is exhausted exactly when the tokenizer has reported the end, and
// seeking revives it.
#[test]
fn is_done_and_seek_revives() {
    let data = b"a,b\nc,d".to_vec();
    let mut builder = ReaderBuilder::new();
    builder.has_headers(false);
    let mut rdr = builder.from_bytes(data);
    assert!(!rdr.is_done());
    let mut rec = ByteRecord::new();
    while rdr.read_byte_record(&mut rec).unwrap() {}
    assert!(rdr.is_done());
    let mut p = Position::new();
    p.set_byte(4);
    p.set_line(2);
    p.set_record(1);
    rdr.seek(p).unwrap();
    assert!(!rdr.is_done());
    assert!(rdr.read_byte_record(&mut rec).unwrap());
    assert_eq!(b"c", rec.get(0).unwrap().as_slice());
}

// Width errors report the position of the offending row even when it spans
// a configured header row.
#[test]
fn width_error_after_headers() {
    let data = b"h1,h2\na,b\nc".to_vec();
    let mut rdr = ReaderBuilder::new().from_bytes(data);
    let mut rec = StringRecord::new();
    assert!(rdr.read_record(&mut rec).unwrap());
    match *rdr.read_record(&mut rec).unwrap_err().kind() {
        ErrorKind::UnequalLengths { expected_len: 2, len: 1, pos: Some(ref p) } => {
            assert_eq!(10, p.byte());
            assert_eq!(3, p.line());
            assert_eq!(2, p.record());
        }
        ref wrong => panic!("match failed, got {:?}", wrong),
    }
}

// Field trimming applies uniformly to every returned row, including the
// first row of a reader configured without headers.
#[test]
fn first_row_trimmed_without_headers() {
    let mut builder = ReaderBuilder::new();
    builder.has_headers(false);
    builder.trim(Trim::Fields);
    let mut rdr = builder.from_bytes(b" a , b \nc,d".to_vec());
    let mut rec = ByteRecord::new();
    assert!(rdr.read_byte_record(&mut rec).unwrap());
    assert_eq!(b"a", rec.get(0).unwrap().as_slice());
    assert_eq!(b"b", rec.get(1).unwrap().as_slice());
    assert!(rdr.read_byte_record(&mut rec).unwrap());
    assert_eq!(b"c", rec.get(0).unwrap().as_slice());
}

// By default `\r`, `\n` and `\r\n` each terminate a record.
#[test]
fn crlf_terminators() {
    let mut builder = ReaderBuilder::new();
    builder.has_headers(false);
    let mut rdr = builder.from_bytes(b"a,b\r\nc,d\re,f\n".to_vec());
    let mut rec = ByteRecord::new();
    let mut firsts = Vec::new();
    while rdr.read_byte_record(&mut rec).unwrap() {
        firsts.push(rec.get(0).unwrap().clone());
    }
    assert_eq!(firsts, vec![b"a".to_vec(), b"c".to_vec(), b"e".to_vec()]);
}
