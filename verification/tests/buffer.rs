//! The fragmented byte store: appending, compaction, prefix consumption,
//! and delimiter scanning.

use lineproto::ByteBuffer;

#[test]
fn new_buffer_is_empty_and_compact() {
    let buf = ByteBuffer::new();
    assert!(buf.is_empty());
    assert_eq!(buf.len(), 0);
    assert!(buf.is_compact());
}

#[test]
fn appends_accumulate_in_order() {
    let mut buf = ByteBuffer::new();
    buf.write_slice(b"ab");
    buf.write_slice(b"cd");
    buf.write_byte(b'e');
    assert_eq!(buf.len(), 5);
    assert!(!buf.is_compact());
    buf.compact();
    assert!(buf.is_compact());
    assert_eq!(buf.shift(5), b"abcde".to_vec());
    assert!(buf.is_empty());
}

#[test]
fn shift_consumes_a_prefix_and_keeps_the_rest() {
    let mut buf = ByteBuffer::new();
    buf.write_slice(b"hello world");
    buf.compact();
    assert_eq!(buf.shift(5), b"hello".to_vec());
    assert_eq!(buf.len(), 6);
    assert_eq!(buf.shift(6), b" world".to_vec());
    assert!(buf.is_empty());
}

#[test]
fn find_reports_the_first_occurrence() {
    let mut buf = ByteBuffer::new();
    buf.write_slice(b"one\ntwo\n");
    buf.compact();
    assert_eq!(buf.find(b'\n'), Some(3));
    assert_eq!(buf.find(b'o'), Some(0));
    assert_eq!(buf.find(b'x'), None);
}

#[test]
fn compact_joins_fragments_without_losing_bytes() {
    let mut buf = ByteBuffer::new();
    for chunk in [b"a".as_slice(), b"bc", b"", b"def"] {
        buf.write_slice(chunk);
    }
    buf.compact();
    assert_eq!(buf.len(), 6);
    assert_eq!(buf.shift(6), b"abcdef".to_vec());
}
