//! The S-record codec: one parser per record kind, whole-file parsing,
//! and regeneration.

use rair::io::RIO;
use rair::srec::{parse_record0, parse_record1, parse_record2, parse_record3, parse_record5,
    parse_record6, parse_record7, parse_record8, parse_record9, Record, SrecInternal};
use rair::utils::{IoError, IoMode};

fn rw() -> IoMode {
    IoMode {
        read: true,
        write: true,
        cow: false,
    }
}

#[test]
fn test_record0() {
    let input = b"S021000036384B50524F47202020323043524541544544204259204541535936384B6D\n";
    let (pos, rec) = parse_record0(input, 0).unwrap();
    assert_eq!(pos, input.len());
    match rec {
        Record::Header(header) => assert_eq!(header, b"68KPROG   20CREATED BY EASY68K"),
        Record::Data(..) | Record::Count(_) | Record::Eof(_) => {
            panic!("Expected Header record")
        }
    }
}

#[test]
fn test_record1() {
    let input = b"S1231000427900001142103C0020123C00004E4F123C00014E4F2841123C00024E4F2641BE\n";
    let (pos, rec) = parse_record1(input, 0).unwrap();
    assert_eq!(pos, input.len());
    if let Record::Data(addr, data) = rec {
        assert_eq!(addr, 0x1000);
        assert_eq!(data.len(), 0x20);
        assert_eq!(
            data,
            [
                0x42, 0x79, 0x00, 0x00, 0x11, 0x42, 0x10, 0x3C, 0x00, 0x20, 0x12, 0x3C, 0x00,
                0x00, 0x4E, 0x4F, 0x12, 0x3C, 0x00, 0x01, 0x4E, 0x4F, 0x28, 0x41, 0x12, 0x3C,
                0x00, 0x02, 0x4E, 0x4F, 0x26, 0x41
            ]
        );
    } else {
        panic!("Expected Data record");
    }
}

#[test]
fn test_record2() {
    let input = b"S2234210007900001142103C0020123C00004E4F123C00014E4F2841123C00024E4F2641BE\n";
    let (pos, rec) = parse_record2(input, 0).unwrap();
    assert_eq!(pos, input.len());
    if let Record::Data(addr, data) = rec {
        assert_eq!(addr, 0x421000);
        assert_eq!(data.len(), 0x1f);
        assert_eq!(
            data,
            [
                0x79, 0x00, 0x00, 0x11, 0x42, 0x10, 0x3C, 0x00, 0x20, 0x12, 0x3C, 0x00, 0x00,
                0x4E, 0x4F, 0x12, 0x3C, 0x00, 0x01, 0x4E, 0x4F, 0x28, 0x41, 0x12, 0x3C, 0x00,
                0x02, 0x4E, 0x4F, 0x26, 0x41
            ]
        );
    } else {
        panic!("Expected Data record");
    }
}

#[test]
fn test_record3() {
    let input = b"S3234200100079001142103C0020123C00004E4F123C00014E4F2841123C00024E4F2641BE\n";
    let (pos, rec) = parse_record3(input, 0).unwrap();
    assert_eq!(pos, input.len());
    if let Record::Data(addr, data) = rec {
        assert_eq!(addr, 0x42001000);
        assert_eq!(data.len(), 0x1e);
        assert_eq!(
            data,
            [
                0x79, 0x00, 0x11, 0x42, 0x10, 0x3C, 0x00, 0x20, 0x12, 0x3C, 0x00, 0x00, 0x4E,
                0x4F, 0x12, 0x3C, 0x00, 0x01, 0x4E, 0x4F, 0x28, 0x41, 0x12, 0x3C, 0x00, 0x02,
                0x4E, 0x4F, 0x26, 0x41
            ]
        );
    } else {
        panic!("Expected Data record");
    }
}

#[test]
fn test_record5() {
    let input = b"S5031234B6\n";
    let (pos, rec) = parse_record5(input, 0).unwrap();
    assert_eq!(pos, input.len());
    if let Record::Count(count) = rec {
        assert_eq!(count, 0x1234);
    } else {
        panic!("Expected Count record");
    }
}

#[test]
fn test_record6() {
    let input = b"S6041234565F\n";
    let (pos, rec) = parse_record6(input, 0).unwrap();
    assert_eq!(pos, input.len());
    if let Record::Count(count) = rec {
        assert_eq!(count, 0x123456);
    } else {
        panic!("Expected Count record");
    }
}

#[test]
fn test_record07() {
    let input = b"S70512001000D8";
    let (pos, rec) = parse_record7(input, 0).unwrap();
    assert_eq!(pos, input.len());
    match rec {
        Record::Eof(addr) => assert_eq!(addr, 0x12001000),
        Record::Header(_) | Record::Data(..) | Record::Count(_) => {
            panic!("Expected Eof record")
        }
    }
}

#[test]
fn test_record08() {
    let input = b"S804100000EB";
    let (pos, rec) = parse_record8(input, 0).unwrap();
    assert_eq!(pos, input.len());
    match rec {
        Record::Eof(addr) => assert_eq!(addr, 0x100000),
        Record::Header(_) | Record::Data(..) | Record::Count(_) => {
            panic!("Expected Eof record")
        }
    }
}

#[test]
fn test_record09() {
    let input = b"S9031234B6";
    let (pos, rec) = parse_record9(input, 0).unwrap();
    assert_eq!(pos, input.len());
    match rec {
        Record::Eof(addr) => assert_eq!(addr, 0x1234),
        Record::Header(_) | Record::Data(..) | Record::Count(_) => {
            panic!("Expected Eof record")
        }
    }
}

fn p10_file() -> Vec<u8> {
    let mut v = Vec::new();
    v.extend_from_slice(
        b"S021000036384B50524F47202020323043524541544544204259204541535936384B6D\n",
    );
    v.extend_from_slice(
        b"S1231000427900001142103C0020123C00004E4F123C00014E4F2841123C00024E4F2641BE\n",
    );
    v.extend_from_slice(b"S9031234B6");
    v
}

#[test]
fn srec_header_and_start_survive_a_rewrite() {
    let file = p10_file();
    let mut internal = SrecInternal::new("srec://prog".to_owned(), rw());
    internal.parse_srec(&file).unwrap();
    assert_eq!(internal.header, b"68KPROG   20CREATED BY EASY68K");
    assert_eq!(internal.start_address, Some(0x1234));
    let out = internal.serialize_srec().unwrap();
    let text = String::from_utf8(out.clone()).unwrap();
    let lines: Vec<&str> = text.lines().collect();
    assert_eq!(
        lines[0],
        "S021000036384b50524f47202020323043524541544544204259204541535936384b6d"
    );
    assert_eq!(lines[1], "S1131000427900001142103c0020123c00004e4f77");
    assert_eq!(lines[2], "S1131010123c00014e4f2841123c00024e4f264123");
    assert_eq!(lines[3], "S9031234b6");
    // Rewriting is idempotent: parsing the regenerated text and
    // rendering it again reproduces it byte for byte.
    let mut second = SrecInternal::new("srec://prog".to_owned(), rw());
    second.parse_srec(&out).unwrap();
    assert_eq!(second.header, internal.header);
    assert_eq!(second.start_address, internal.start_address);
    let out2 = second.serialize_srec().unwrap();
    assert_eq!(out2, out);
}

#[test]
fn srec_source_reads_through_the_engine() {
    let file = p10_file();
    let mut io = RIO::new();
    io.open_srec("srec://prog", rw(), &file).unwrap();
    // The source is placed at the lowest free physical address; its
    // natural base is the lowest populated address.
    let mut data = vec![0u8; 16];
    io.pread(0, &mut data).unwrap();
    assert_eq!(
        data,
        [0x42, 0x79, 0x00, 0x00, 0x11, 0x42, 0x10, 0x3C, 0x00, 0x20, 0x12, 0x3C, 0x00, 0x00,
            0x4E, 0x4F]
    );
}

#[test]
fn srec_write_updates_the_regenerated_file() {
    let file = p10_file();
    let mut io = RIO::new();
    let hndl = io.open_srec("srec://prog", rw(), &file).unwrap();
    io.pwrite(0, &vec![0x80, 0x90, 0xff, 0xfe]).unwrap();
    let mut data = vec![0u8; 4];
    io.pread(0, &mut data).unwrap();
    assert_eq!(data, [0x80, 0x90, 0xff, 0xfe]);
    let rendered = io.record_file(hndl).unwrap();
    let text = String::from_utf8(rendered).unwrap();
    assert!(text.starts_with(
        "S021000036384b50524f47202020323043524541544544204259204541535936384b6d\n"
    ));
    assert!(text.contains("S11310008090fffe1142103c0020123c00004e4f"));
}

#[test]
fn test_corrupted() {
    let mut input = Vec::new();
    input.extend_from_slice(
        b"S021000036384B50524F47202020323043524541544544204259204541535936384B6D\n",
    );
    input.extend_from_slice(b"SX31000427900\n");
    input.extend_from_slice(b"S9031234B6");
    let mut internal = SrecInternal::new("srec://broken".to_owned(), rw());
    let err = internal.parse_srec(&input).err().unwrap();
    assert_eq!(
        err,
        IoError::Custom("Invalid S-record at line: 2".to_owned())
    );
}

#[test]
fn record_open_refuses_a_foreign_scheme() {
    let file = p10_file();
    let mut io = RIO::new();
    match io.open_srec("malloc://0x50", rw(), &file) {
        Err(IoError::Custom(m)) => assert_eq!(m, "Invalid uri malloc://0x50"),
        other => panic!("expected a uri failure, got {:?}", other),
    }
    match io.open_srec_at("s", rw(), &file, 0x1000) {
        Err(IoError::Custom(m)) => assert_eq!(m, "Invalid uri s"),
        other => panic!("expected a uri failure, got {:?}", other),
    }
}

#[test]
fn header_count_byte_sets_the_limit() {
    // The S0 count byte is the header length plus three, so the longest
    // writable header is 0xfc bytes.
    let mut ok = SrecInternal::new("srec://h".to_owned(), rw());
    ok.parse_srec(b"S1131000427900001142103C0020123C00004E4F77\nS9031234B6\n".as_ref()).unwrap();
    ok.header = vec![0x41; 0xfc];
    let text = ok.serialize_srec().unwrap();
    assert!(text.starts_with(b"S0ff0000".as_ref()));
    ok.header = vec![0x41; 0xfd];
    match ok.serialize_srec() {
        Err(IoError::Custom(m)) => assert_eq!(m, "Cannot write S0 Entry with size > 0xff"),
        other => panic!("expected a header failure, got {:?}", other),
    }
}
