use csv_async::{ByteRecord, ErrorKind, Position, ReaderBuilder, StringRecord, Trim};

fn b(s: &str) -> &[u8] {
    s.as_bytes()
}

fn s(b: &[u8]) -> &str {
    std::str::from_utf8(b).unwrap()
}

fn newpos(byte: u64, line: u64, record: u64) -> Position {
    let mut p = Position::new();
    p.set_byte(byte);
    p.set_line(line);
    p.set_record(record);
    p
}

fn count_records(rdr: &mut csv_async::MemReader) -> usize {
    let mut rec = StringRecord::new();
    let mut n = 0;
    while rdr.read_record(&mut rec).unwrap() {
        n += 1;
    }
    n
}

#[test]
fn read_byte_record() {
    let data = b("foo,\"b,ar\",baz\nabc,mno,xyz");
    let mut builder = ReaderBuilder::new();
    builder.has_headers(false);
    let mut rdr = builder.from_bytes(data.to_vec());
    let mut rec = ByteRecord::new();

    assert!(rdr.read_byte_record(&mut rec).unwrap());
    assert_eq!(3, rec.len());
    assert_eq!("foo", s(rec.get(0).unwrap()));
    assert_eq!("b,ar", s(rec.get(1).unwrap()));
    assert_eq!("baz", s(rec.get(2).unwrap()));

    assert!(rdr.read_byte_record(&mut rec).unwrap());
    assert_eq!(3, rec.len());
    assert_eq!("abc", s(rec.get(0).unwrap()));
    assert_eq!("mno", s(rec.get(1).unwrap()));
    assert_eq!("xyz", s(rec.get(2).unwrap()));

    assert!(!rdr.read_byte_record(&mut rec).unwrap());
}

#[test]
fn read_trimmed_records_and_headers() {
    let data = b("foo,  bar,\tbaz\n  1,  2,  3\n1\t,\t,3\t\t");
    let mut builder = ReaderBuilder::new();
    builder.has_headers(true);
    builder.trim(Trim::All);
    let mut rdr = builder.from_bytes(data.to_vec());
    let mut rec = ByteRecord::new();
    assert!(rdr.read_byte_record(&mut rec).unwrap());
    assert_eq!("1", s(rec.get(0).unwrap()));
    assert_eq!("2", s(rec.get(1).unwrap()));
    assert_eq!("3", s(rec.get(2).unwrap()));
    let mut rec = StringRecord::new();
    assert!(rdr.read_record(&mut rec).unwrap());
    assert_eq!("1", rec.get(0).unwrap());
    assert_eq!("", rec.get(1).unwrap());
    assert_eq!("3", rec.get(2).unwrap());
    {
        let headers = rdr.headers().unwrap();
        assert_eq!(3, headers.len());
        assert_eq!("foo", headers.get(0).unwrap());
        assert_eq!("bar", headers.get(1).unwrap());
        assert_eq!("baz", headers.get(2).unwrap());
    }
}

#[test]
fn read_trimmed_header() {
    let data = b("foo,  bar,\tbaz\n  1,  2,  3\n1\t,\t,3\t\t");
    let mut builder = ReaderBuilder::new();
    builder.has_headers(true);
    builder.trim(Trim::Headers);
    let mut rdr = builder.from_bytes(data.to_vec());
    let mut rec = ByteRecord::new();
    assert!(rdr.read_byte_record(&mut rec).unwrap());
    assert_eq!("  1", s(rec.get(0).unwrap()));
    assert_eq!("  2", s(rec.get(1).unwrap()));
    assert_eq!("  3", s(rec.get(2).unwrap()));
    {
        let headers = rdr.headers().unwrap();
        assert_eq!(3, headers.len());
        assert_eq!("foo", headers.get(0).unwrap());
        assert_eq!("bar", headers.get(1).unwrap());
        assert_eq!("baz", headers.get(2).unwrap());
    }
}

#[test]
fn read_trimed_header_invalid_utf8() {
    let data = &b"foo,  b\xFFar,\tbaz\na,b,c\nd,e,f"[..];
    let mut builder = ReaderBuilder::new();
    builder.has_headers(true);
    builder.trim(Trim::Headers);
    let mut rdr = builder.from_bytes(data.to_vec());
    let mut rec = StringRecord::new();

    // force the headers to be read
    let _ = rdr.read_record(&mut rec);
    // Check the byte headers are trimmed
    {
        let headers = rdr.byte_headers().unwrap();
        assert_eq!(3, headers.len());
        assert_eq!(b"foo", headers.get(0).unwrap().as_slice());
        assert_eq!(b"b\xFFar", headers.get(1).unwrap().as_slice());
        assert_eq!(b"baz", headers.get(2).unwrap().as_slice());
    }
    match *rdr.headers().unwrap_err().kind() {
        ErrorKind::Utf8 { pos: Some(ref pos), ref err } => {
            assert_eq!(pos, &newpos(0, 1, 0));
            assert_eq!(err.field(), 1);
            assert_eq!(err.valid_up_to(), 3);
        }
        ref err => panic!("match failed, got {:?}", err),
    }
}

#[test]
fn read_trimmed_records() {
    let data = b("foo,  bar,\tbaz\n  1,  2,  3\n1\t,\t,3\t\t");
    let mut builder = ReaderBuilder::new();
    builder.has_headers(true);
    builder.trim(Trim::Fields);
    let mut rdr = builder.from_bytes(data.to_vec());
    let mut rec = ByteRecord::new();
    assert!(rdr.read_byte_record(&mut rec).unwrap());
    assert_eq!("1", s(rec.get(0).unwrap()));
    assert_eq!("2", s(rec.get(1).unwrap()));
    assert_eq!("3", s(rec.get(2).unwrap()));
    {
        let headers = rdr.headers().unwrap();
        assert_eq!(3, headers.len());
        assert_eq!("foo", headers.get(0).unwrap());
        assert_eq!("  bar", headers.get(1).unwrap());
        assert_eq!("\tbaz", headers.get(2).unwrap());
    }
}

#[test]
fn read_record_unequal_fails() {
    let data = b("foo\nbar,baz");
    let mut builder = ReaderBuilder::new();
    builder.has_headers(false);
    let mut rdr = builder.from_bytes(data.to_vec());
    let mut rec = ByteRecord::new();

    assert!(rdr.read_byte_record(&mut rec).unwrap());
    assert_eq!(1, rec.len());
    assert_eq!("foo", s(rec.get(0).unwrap()));

    match rdr.read_byte_record(&mut rec) {
        Err(err) => match *err.kind() {
            ErrorKind::UnequalLengths { expected_len: 1, ref pos, len: 2 } => {
                assert_eq!(pos, &Some(newpos(4, 2, 1)));
            }
            ref wrong => panic!("match failed, got {:?}", wrong),
        },
        wrong => panic!("match failed, got {:?}", wrong),
    }
}

#[test]
fn read_record_unequal_ok() {
    let data = b("foo\nbar,baz");
    let mut builder = ReaderBuilder::new();
    builder.has_headers(false);
    builder.flexible(true);
    let mut rdr = builder.from_bytes(data.to_vec());
    let mut rec = ByteRecord::new();

    assert!(rdr.read_byte_record(&mut rec).unwrap());
    assert_eq!(1, rec.len());
    assert_eq!("foo", s(rec.get(0).unwrap()));

    assert!(rdr.read_byte_record(&mut rec).unwrap());
    assert_eq!(2, rec.len());
    assert_eq!("bar", s(rec.get(0).unwrap()));
    assert_eq!("baz", s(rec.get(1).unwrap()));

    assert!(!rdr.read_byte_record(&mut rec).unwrap());
}

// This tests that even if we get a CSV error, we can continue reading
// if we want.
#[test]
fn read_record_unequal_continue() {
    let data = b("foo\nbar,baz\nquux");
    let mut builder = ReaderBuilder::new();
    builder.has_headers(false);
    let mut rdr = builder.from_bytes(data.to_vec());
    let mut rec = ByteRecord::new();

    assert!(rdr.read_byte_record(&mut rec).unwrap());
    assert_eq!(1, rec.len());
    assert_eq!("foo", s(rec.get(0).unwrap()));

    match rdr.read_byte_record(&mut rec) {
        Err(err) => match err.kind() {
            &ErrorKind::UnequalLengths { expected_len: 1, ref pos, len: 2 } => {
                assert_eq!(pos, &Some(newpos(4, 2, 1)));
            }
            wrong => panic!("match failed, got {:?}", wrong),
        },
        wrong => panic!("match failed, got {:?}", wrong),
    }

    assert!(rdr.read_byte_record(&mut rec).unwrap());
    assert_eq!(1, rec.len());
    assert_eq!("quux", s(rec.get(0).unwrap()));

    assert!(!rdr.read_byte_record(&mut rec).unwrap());
}

#[test]
fn read_record_headers() {
    let data = b("foo,bar,baz\na,b,c\nd,e,f");
    let mut builder = ReaderBuilder::new();
    builder.has_headers(true);
    let mut rdr = builder.from_bytes(data.to_vec());
    let mut rec = StringRecord::new();

    assert!(rdr.read_record(&mut rec).unwrap());
    assert_eq!(3, rec.len());
    assert_eq!("a", rec.get(0).unwrap());

    assert!(rdr.read_record(&mut rec).unwrap());
    assert_eq!(3, rec.len());
    assert_eq!("d", rec.get(0).unwrap());

    assert!(!rdr.read_record(&mut rec).unwrap());

    {
        let headers = rdr.byte_headers().unwrap();
        assert_eq!(3, headers.len());
        assert_eq!(b"foo", headers.get(0).unwrap().as_slice());
        assert_eq!(b"bar", headers.get(1).unwrap().as_slice());
        assert_eq!(b"baz", headers.get(2).unwrap().as_slice());
    }
    {
        let headers = rdr.headers().unwrap();
        assert_eq!(3, headers.len());
        assert_eq!("foo", headers.get(0).unwrap());
        assert_eq!("bar", headers.get(1).unwrap());
        assert_eq!("baz", headers.get(2).unwrap());
    }
}

#[test]
fn read_record_headers_invalid_utf8() {
    let data = &b"foo,b\xFFar,baz\na,b,c\nd,e,f"[..];
    let mut builder = ReaderBuilder::new();
    builder.has_headers(true);
    let mut rdr = builder.from_bytes(data.to_vec());
    let mut rec = StringRecord::new();

    assert!(rdr.read_record(&mut rec).unwrap());
    assert_eq!(3, rec.len());
    assert_eq!("a", rec.get(0).unwrap());

    assert!(rdr.read_record(&mut rec).unwrap());
    assert_eq!(3, rec.len());
    assert_eq!("d", rec.get(0).unwrap());

    assert!(!rdr.read_record(&mut rec).unwrap());

    // Check that we can read the headers as raw bytes, but that
    // if we read them as strings, we get an appropriate UTF-8 error.
    {
        let headers = rdr.byte_headers().unwrap();
        assert_eq!(3, headers.len());
        assert_eq!(b"foo", headers.get(0).unwrap().as_slice());
        assert_eq!(b"b\xFFar", headers.get(1).unwrap().as_slice());
        assert_eq!(b"baz", headers.get(2).unwrap().as_slice());
    }
    match *rdr.headers().unwrap_err().kind() {
        ErrorKind::Utf8 { pos: Some(ref pos), ref err } => {
            assert_eq!(pos, &newpos(0, 1, 0));
            assert_eq!(err.field(), 1);
            assert_eq!(err.valid_up_to(), 1);
        }
        ref err => panic!("match failed, got {:?}", err),
    }
}

#[test]
fn read_record_no_headers_before() {
    let data = b("foo,bar,baz\na,b,c\nd,e,f");
    let mut builder = ReaderBuilder::new();
    builder.has_headers(false);
    let mut rdr = builder.from_bytes(data.to_vec());
    let mut rec = StringRecord::new();

    {
        let headers = rdr.headers().unwrap();
        assert_eq!(3, headers.len());
        assert_eq!("foo", headers.get(0).unwrap());
        assert_eq!("bar", headers.get(1).unwrap());
        assert_eq!("baz", headers.get(2).unwrap());
    }

    assert!(rdr.read_record(&mut rec).unwrap());
    assert_eq!(3, rec.len());
    assert_eq!("foo", rec.get(0).unwrap());

    assert!(rdr.read_record(&mut rec).unwrap());
    assert_eq!(3, rec.len());
    assert_eq!("a", rec.get(0).unwrap());

    assert!(rdr.read_record(&mut rec).unwrap());
    assert_eq!(3, rec.len());
    assert_eq!("d", rec.get(0).unwrap());

    assert!(!rdr.read_record(&mut rec).unwrap());
}

#[test]
fn read_record_no_headers_after() {
    let data = b("foo,bar,baz\na,b,c\nd,e,f");
    let mut builder = ReaderBuilder::new();
    builder.has_headers(false);
    let mut rdr = builder.from_bytes(data.to_vec());
    let mut rec = StringRecord::new();

    assert!(rdr.read_record(&mut rec).unwrap());
    assert_eq!(3, rec.len());
    assert_eq!("foo", rec.get(0).unwrap());

    assert!(rdr.read_record(&mut rec).unwrap());
    assert_eq!(3, rec.len());
    assert_eq!("a", rec.get(0).unwrap());

    assert!(rdr.read_record(&mut rec).unwrap());
    assert_eq!(3, rec.len());
    assert_eq!("d", rec.get(0).unwrap());

    assert!(!rdr.read_record(&mut rec).unwrap());

    let headers = rdr.headers().unwrap();
    assert_eq!(3, headers.len());
    assert_eq!("foo", headers.get(0).unwrap());
    assert_eq!("bar", headers.get(1).unwrap());
    assert_eq!("baz", headers.get(2).unwrap());
}

#[test]
fn seek() {
    let data = b("foo,bar,baz\na,b,c\nd,e,f\ng,h,i");
    let mut rdr = ReaderBuilder::new().from_bytes(data.to_vec());
    rdr.seek(newpos(18, 3, 2)).unwrap();

    let mut rec = StringRecord::new();

    assert_eq!(18, rdr.position().byte());
    assert!(rdr.read_record(&mut rec).unwrap());
    assert_eq!(3, rec.len());
    assert_eq!("d", rec.get(0).unwrap());

    assert_eq!(24, rdr.position().byte());
    assert_eq!(4, rdr.position().line());
    assert_eq!(3, rdr.position().record());
    assert!(rdr.read_record(&mut rec).unwrap());
    assert_eq!(3, rec.len());
    assert_eq!("g", rec.get(0).unwrap());

    assert!(!rdr.read_record(&mut rec).unwrap());
}

// Test that we can read headers after seeking even if the headers weren't
// explicitly read before seeking.
#[test]
fn seek_headers_after() {
    let data = b("foo,bar,baz\na,b,c\nd,e,f\ng,h,i");
    let mut rdr = ReaderBuilder::new().from_bytes(data.to_vec());
    rdr.seek(newpos(18, 3, 2)).unwrap();
    let headers = rdr.headers().unwrap();
    assert_eq!(3, headers.len());
    assert_eq!("foo", headers.get(0).unwrap());
    assert_eq!("bar", headers.get(1).unwrap());
    assert_eq!("baz", headers.get(2).unwrap());
}

// Test that we can read headers after seeking if the headers were read
// before seeking.
#[test]
fn seek_headers_before_after() {
    let data = b("foo,bar,baz\na,b,c\nd,e,f\ng,h,i");
    let mut rdr = ReaderBuilder::new().from_bytes(data.to_vec());
    let headers = rdr.headers().unwrap().clone();
    rdr.seek(newpos(18, 3, 2)).unwrap();
    let headers2 = rdr.headers().unwrap();
    assert_eq!(headers.len(), headers2.len());
    for i in 0..headers.len() {
        assert_eq!(headers.get(i).unwrap(), headers2.get(i).unwrap());
    }
}

// Test that even if we didn't read headers before seeking, if we seek to
// the current byte offset, then no seeking is done and therefore we can
// still read headers after seeking.
#[test]
fn seek_headers_no_actual_seek() {
    let data = b("foo,bar,baz\na,b,c\nd,e,f\ng,h,i");
    let mut rdr = ReaderBuilder::new().from_bytes(data.to_vec());
    rdr.seek(Position::new()).unwrap();
    assert_eq!("foo", rdr.headers().unwrap().get(0).unwrap());
}

// Test that position info is reported correctly in absence of headers.
#[test]
fn positions_no_headers() {
    let mut builder = ReaderBuilder::new();
    builder.has_headers(false);
    let mut rdr = builder.from_bytes("a,b,c\nx,y,z".as_bytes().to_vec());

    let mut rec = StringRecord::new();
    assert!(rdr.read_record(&mut rec).unwrap());
    let pos = rec.position().unwrap();
    assert_eq!(pos.byte(), 0);
    assert_eq!(pos.line(), 1);
    assert_eq!(pos.record(), 0);

    assert!(rdr.read_record(&mut rec).unwrap());
    let pos = rec.position().unwrap();
    assert_eq!(pos.byte(), 6);
    assert_eq!(pos.line(), 2);
    assert_eq!(pos.record(), 1);
}

// Test that position info is reported correctly with headers.
#[test]
fn positions_headers() {
    let mut builder = ReaderBuilder::new();
    builder.has_headers(false);
    let mut rdr = builder.from_bytes("a,b,c\nx,y,z".as_bytes().to_vec());

    let mut rec = StringRecord::new();
    assert!(rdr.read_record(&mut rec).unwrap());
    assert!(rdr.read_record(&mut rec).unwrap());
    let pos = rec.position().unwrap();
    assert_eq!(pos.byte(), 6);
    assert_eq!(pos.line(), 2);
    assert_eq!(pos.record(), 1);
}

// Test that reading headers on empty data yields an empty record.
#[test]
fn headers_on_empty_data() {
    let mut rdr = ReaderBuilder::new().from_bytes(Vec::new());
    let r = rdr.byte_headers().unwrap();
    assert_eq!(r.len(), 0);
}

// Test that reading the first record on empty data works.
#[test]
fn no_headers_on_empty_data() {
    let mut builder = ReaderBuilder::new();
    builder.has_headers(false);
    let mut rdr = builder.from_bytes(Vec::new());
    assert_eq!(count_records(&mut rdr), 0);
}

// Test that reading the first record on empty data works, even if
// we've tried to read headers before hand.
#[test]
fn no_headers_on_empty_data_after_headers() {
    let mut builder = ReaderBuilder::new();
    builder.has_headers(false);
    let mut rdr = builder.from_bytes(Vec::new());
    assert_eq!(rdr.headers().unwrap().len(), 0);
    assert_eq!(count_records(&mut rdr), 0);
}
