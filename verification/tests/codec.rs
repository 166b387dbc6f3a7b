//! Tests of the cursor, writer, and variable-length integer codec.

use nucleide::error::Error;
use nucleide::reader::Reader;
use nucleide::writer::Writer;

#[test]
fn roundtrip() {
    for i in (0..=u32::from(u16::MAX)).chain((u32::MAX - u32::from(u16::MAX))..=u32::MAX) {
        let mut writer = Writer::new();
        writer.uleb128(u128::from(i));
        let buffer = writer.into_buffer();
        assert!(buffer.len() < 7);
        let mut reader = Reader::new(&buffer[..]);
        let j = reader.integer().unwrap();
        assert_eq!(i, j);
        assert!(reader.end().is_some());
    }
    for i in (u64::from(u32::MAX) + 1)..(u64::from(u32::MAX) + u64::from(u16::MAX)) {
        let mut writer = Writer::new();
        writer.uleb128(u128::from(i));
        let buffer = writer.into_buffer();
        let mut reader = Reader::new(&buffer[..]);
        let decoded = reader.integer();
        assert!(decoded.is_none(), "{i} decoded is {decoded:?}");
    }
}

#[test]
fn varint_known_bytes() {
    // 624485 = 0x098765 encodes to e5 8e 26 in base-128 little-endian.
    let mut writer = Writer::new();
    writer.uleb128(624485);
    assert_eq!(writer.into_buffer(), vec![0xe5, 0x8e, 0x26]);

    let mut writer = Writer::new();
    writer.uleb128(0);
    assert_eq!(writer.into_buffer(), vec![0x00]);

    let mut writer = Writer::new();
    writer.uleb128(127);
    assert_eq!(writer.into_buffer(), vec![0x7f]);

    let mut writer = Writer::new();
    writer.uleb128(128);
    assert_eq!(writer.into_buffer(), vec![0x80, 0x01]);

    let mut writer = Writer::new();
    writer.uleb128(u128::from(u32::MAX));
    assert_eq!(writer.into_buffer(), vec![0xff, 0xff, 0xff, 0xff, 0x0f]);
}

#[test]
fn varint_non_canonical_and_overflow() {
    // A non-canonical (overlong) encoding of 0 still decodes.
    let mut reader = Reader::new(&[0x80, 0x00]);
    assert_eq!(reader.integer(), Some(0));
    assert!(reader.end().is_some());

    // Five bytes whose top digit sets bits beyond 32 bits: rejected.
    let mut reader = Reader::new(&[0xff, 0xff, 0xff, 0xff, 0x10]);
    assert_eq!(reader.integer(), None);

    // Six continuation bytes: too long for a 32-bit target.
    let mut reader = Reader::new(&[0x80, 0x80, 0x80, 0x80, 0x80, 0x01]);
    assert_eq!(reader.integer(), None);
}

#[test]
fn truncated_integer_fails() {
    // Continuation bit set on the last byte physically present.
    let mut reader = Reader::new(&[0x80]);
    assert_eq!(reader.integer(), None);

    // The same truncation surfaced through a field parse, as the
    // malformed-integer class.
    let mut reader = Reader::new(&[0x80]);
    assert_eq!(reader.name(), Err(Error::MalformedInteger));
}

#[test]
fn fixed_width_reads() {
    let bytes = [
        0x01, 0x02, 0x03, 0x04, 0x05, 0x06, 0x07, 0x08, 0x09, 0x0a, 0x0b, 0x0c, 0x0d, 0x0e,
        0x0f, 0x10,
    ];
    let mut reader = Reader::new(&bytes);
    assert_eq!(reader.u8(), Some(0x01));
    assert_eq!(reader.u16(), Some(0x0302));
    assert_eq!(reader.u32(), Some(0x07060504));
    assert_eq!(reader.u64(), Some(0x0f0e0d0c0b0a0908));
    assert_eq!(reader.u128(), None);
    assert_eq!(reader.u8(), Some(0x10));
    assert!(reader.end().is_some());
}

#[test]
fn fixed_width_writes() {
    let mut writer = Writer::new();
    writer.u8(0xab);
    writer.u16(0x0102);
    writer.u32(0x03040506);
    writer.u64(0x0708090a0b0c0d0e);
    writer.u128(1);
    let buffer = writer.into_buffer();
    assert_eq!(buffer.len(), 1 + 2 + 4 + 8 + 16);
    assert_eq!(&buffer[..3], &[0xab, 0x02, 0x01]);
    let mut reader = Reader::new(&buffer[1..]);
    assert_eq!(reader.u16(), Some(0x0102));
    assert_eq!(reader.u32(), Some(0x03040506));
    assert_eq!(reader.u64(), Some(0x0708090a0b0c0d0e));
    assert_eq!(reader.u128(), Some(1));
}

#[test]
fn str_and_bytes_reads() {
    let mut writer = Writer::new();
    writer.str("hé");
    writer.bytes(&[1, 2, 3]);
    let buffer = writer.into_buffer();
    let mut reader = Reader::new(&buffer[..]);
    let s = reader.str(3).expect("valid utf-8");
    assert_eq!(s, "hé");
    assert_eq!(reader.bytes(3), Some(&[1u8, 2, 3][..]));
    assert!(reader.end().is_some());

    // Invalid UTF-8 is rejected.
    let mut reader = Reader::new(&[0xff, 0xfe]);
    assert!(reader.str(2).is_none());

    // Reading past the end is rejected.
    let mut reader = Reader::new(&[1]);
    assert!(reader.bytes(2).is_none());
}

#[test]
fn bounded_subreader() {
    let mut reader = Reader::new(&[1, 2, 3, 4, 5]);
    let mut sub = reader.reader(2).expect("enough bytes");
    assert_eq!(sub.u8(), Some(1));
    assert_eq!(sub.u8(), Some(2));
    // The sub-reader cannot read past its declared bound.
    assert_eq!(sub.u8(), None);
    // The outer reader resumes just past the carved-out span.
    assert_eq!(reader.u8(), Some(3));
    // Asking for more than remains fails.
    assert!(reader.reader(3).is_none());
}

#[test]
fn name_length_prefixed() {
    let mut writer = Writer::new();
    writer.name("main");
    let buffer = writer.into_buffer();
    assert_eq!(buffer, vec![4, b'm', b'a', b'i', b'n']);
    let mut reader = Reader::new(&buffer[..]);
    assert_eq!(reader.name(), Ok(String::from("main")));

    // A declared length past the end of the buffer is a malformed string.
    let mut reader = Reader::new(&[5, b'a']);
    assert_eq!(reader.name(), Err(Error::MalformedString));
}
