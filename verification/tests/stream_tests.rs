//! Byte-stream cursors, the variable-length integer codec, and the
//! exception channel.

use image_coders::blob::{BlobReader, BlobWriter};
use image_coders::exception::{Exception, ExceptionInfo, ExceptionTag};
use image_coders::wbmp::{read_wbmp_integer, write_wbmp_integer};

fn reader(bytes: &[u8]) -> BlobReader {
    BlobReader { data: bytes.to_vec(), pos: 0 }
}

#[test]
fn read_u8_in_order() {
    let mut exc = ExceptionInfo::new();
    let mut r = reader(&[0x10, 0x20]);
    assert_eq!(r.read_u8(&mut exc), Ok(0x10));
    assert_eq!(r.read_u8(&mut exc), Ok(0x20));
    assert!(exc.check().is_ok());
}

#[test]
fn read_u8_past_end_is_short_read() {
    let mut exc = ExceptionInfo::new();
    let mut r = reader(&[]);
    assert_eq!(r.read_u8(&mut exc), Err(()));
    assert!(exc.check().is_err());
    let rec = exc.record.unwrap();
    assert_eq!(rec.kind, Exception::CorruptImageError);
    assert_eq!(rec.tag, ExceptionTag::ShortRead);
}

#[test]
fn read_u16_be_is_big_endian() {
    let mut exc = ExceptionInfo::new();
    let mut r = reader(&[0x12, 0x34]);
    assert_eq!(r.read_u16_be(&mut exc), Ok(0x1234));
}

#[test]
fn read_u16_be_with_one_byte_is_short_read() {
    let mut exc = ExceptionInfo::new();
    let mut r = reader(&[0x12]);
    assert_eq!(r.read_u16_be(&mut exc), Err(()));
    assert_eq!(exc.record.unwrap().tag, ExceptionTag::ShortRead);
}

#[test]
fn writer_primitives() {
    let mut w = BlobWriter::new();
    w.write_u8(0xab);
    w.write_u16_be(0x1234);
    w.write_all(&[1, 2, 3]);
    assert_eq!(w.data, vec![0xab, 0x12, 0x34, 1, 2, 3]);
}

#[test]
fn varint_encodings_are_exact() {
    let cases: Vec<(usize, Vec<u8>)> = vec![
        (0, vec![0x00]),
        (1, vec![0x01]),
        (127, vec![0x7f]),
        (128, vec![0x81, 0x00]),
        (300, vec![0x82, 0x2c]),
        (16383, vec![0xff, 0x7f]),
        (16384, vec![0x81, 0x80, 0x00]),
    ];
    for (value, bytes) in cases {
        let mut w = BlobWriter::new();
        write_wbmp_integer(&mut w, value);
        assert_eq!(w.data, bytes, "encoding of {}", value);
    }
}

#[test]
fn varint_round_trips() {
    let values: Vec<usize> = vec![0, 1, 7, 127, 128, 129, 300, 16383, 16384, 65535, usize::MAX];
    for value in values {
        let mut w = BlobWriter::new();
        write_wbmp_integer(&mut w, value);
        // The continuation bit is set on every byte but the last, and
        // clear on the last.
        let n = w.data.len();
        for (i, b) in w.data.iter().enumerate() {
            if i + 1 < n {
                assert!(*b >= 0x80);
            } else {
                assert!(*b < 0x80);
            }
        }
        let mut exc = ExceptionInfo::new();
        let mut r = BlobReader { data: w.data, pos: 0 };
        assert_eq!(read_wbmp_integer(&mut r, &mut exc), Ok(value));
        assert_eq!(r.pos, n);
    }
}

#[test]
fn varint_decode_ignores_trailing_bytes() {
    let mut exc = ExceptionInfo::new();
    let mut r = reader(&[0x82, 0x2c, 0x55]);
    assert_eq!(read_wbmp_integer(&mut r, &mut exc), Ok(300));
    assert_eq!(r.pos, 2);
}

#[test]
fn varint_decode_of_endless_continuation_is_short_read() {
    let mut exc = ExceptionInfo::new();
    let mut r = reader(&[0x80, 0x80]);
    assert_eq!(read_wbmp_integer(&mut r, &mut exc), Err(()));
    assert_eq!(exc.record.unwrap().tag, ExceptionTag::ShortRead);
}

#[test]
fn exception_channel_starts_clear() {
    let exc = ExceptionInfo::new();
    assert!(exc.check().is_ok());
    assert!(exc.record.is_none());
}

#[test]
fn throw_records_and_always_errs() {
    let mut exc = ExceptionInfo::new();
    assert_eq!(
        exc.throw(Exception::CoderError, ExceptionTag::OnlyLevelZerofilesSupported, "here"),
        Err(())
    );
    assert!(exc.check().is_err());
    let rec = exc.record.unwrap();
    assert_eq!(rec.kind, Exception::CoderError);
    assert_eq!(rec.tag, ExceptionTag::OnlyLevelZerofilesSupported);
    assert_eq!(rec.location, "here");
}

#[test]
fn throw_keeps_the_most_severe_record() {
    let mut exc = ExceptionInfo::new();
    let _ = exc.throw(Exception::CorruptImageError, ExceptionTag::ShortRead, "first");
    let _ = exc.throw(
        Exception::ResourceLimitError,
        ExceptionTag::MemoryAllocationFailed,
        "second",
    );
    // A less severe report does not displace the record.
    assert_eq!(exc.record.unwrap().kind, Exception::CorruptImageError);
    let _ = exc.throw(Exception::CoderError, ExceptionTag::ImproperImageHeader, "third");
    // A more severe report does.
    assert_eq!(exc.record.unwrap().kind, Exception::CoderError);
}
