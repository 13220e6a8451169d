use hematite::db::Error;
use hematite::event::Event;
use hematite::index::{encode_offsets, push_entry};
use hematite::lines::line_offsets;

#[test]
fn event_is_stored_compact_and_decodes_byte_for_byte() {
    let e = Event::parse(b"{ \"source\" : \"a\",\n \"id\": \"1\" }").unwrap();
    assert_eq!(e.as_bytes(), br#"{"id":"1","source":"a"}"#);
    assert_eq!(e.encode(), b"{\"id\":\"1\",\"source\":\"a\"}\n".to_vec());
    let back = Event::from_line(e.as_bytes()).unwrap();
    assert_eq!(back.as_bytes(), e.as_bytes());
}

#[test]
fn newlines_inside_strings_are_escaped() {
    let e = Event::parse(b"{\"text\":\"two\\nlines\"}").unwrap();
    assert!(!e.as_bytes().contains(&b'\n'));
}

#[test]
fn malformed_lines_are_refused() {
    assert_eq!(Event::parse(b"{oops").err(), Some(Error::DecodeFailed));
    assert_eq!(Event::from_line(b"{\"a\":1}\n").err(), Some(Error::DecodeFailed));
    assert_eq!(Event::from_line(b"").err(), Some(Error::DecodeFailed));
    assert!(Event::from_line(b"{\"a\": 1}").is_ok());
}

#[test]
fn from_value_writes_compact_json() {
    let v: serde_json::Value = serde_json::from_str("{\"b\": [1, 2], \"a\": null}").unwrap();
    let e = Event::from_value(&v).unwrap();
    assert_eq!(e.as_bytes(), br#"{"a":null,"b":[1,2]}"#);
}

#[test]
fn line_offsets_mark_complete_lines() {
    assert_eq!(line_offsets(b""), (vec![], 0));
    assert_eq!(line_offsets(b"ab\nc\n"), (vec![0, 3], 5));
    assert_eq!(line_offsets(b"ab\ncd"), (vec![0], 3));
    assert_eq!(line_offsets(b"\n\n"), (vec![0, 1], 2));
}

#[test]
fn index_entries_are_big_endian() {
    let mut buf = Vec::new();
    push_entry(&mut buf, 0x0102030405060708);
    assert_eq!(buf, vec![1, 2, 3, 4, 5, 6, 7, 8]);
    let idx = encode_offsets(&[0, 256, u64::MAX]);
    assert_eq!(idx.len(), 24);
    assert_eq!(&idx[8..16], &[0, 0, 0, 0, 0, 0, 1, 0]);
    assert_eq!(&idx[16..24], &[255; 8]);
    assert!(encode_offsets(&[]).is_empty());
}
