use linebuffer::LineBuffer;

// The most recently inserted record is always visible, whatever came before.
#[test]
fn newest_record_always_visible() {
    let mut buffer: LineBuffer<usize> = LineBuffer::new(5, 3);
    let payloads: [&[u8]; 6] = [b"a", b"bb", b"", b"ccc", b"dddd", b"e"];
    for (i, p) in payloads.iter().enumerate() {
        buffer.insert(p, i);
        let newest: usize = buffer.elements() - 1;
        assert_eq!(buffer.get(newest), Some((*p, &i)));
    }
}

// With record capacity 3 and 5 one-byte inserts, exactly the last 3 survive.
#[test]
fn eviction_by_count_window() {
    let mut buffer: LineBuffer<u8> = LineBuffer::new(100, 3);
    for i in 0u8..5 {
        buffer.insert(&[i], i);
    }
    assert_eq!(buffer.get(0), None);
    assert_eq!(buffer.get(1), None);
    for i in 2usize..5 {
        assert_eq!(buffer.get(i), Some((&[i as u8][..], &(i as u8))));
    }
    assert_eq!(buffer.get(5), None);
}

// Once cumulative bytes exceed the byte capacity, records whose bytes were
// wrapped over are gone; those inside the trailing window come back intact.
#[test]
fn eviction_by_bytes_window() {
    let mut buffer: LineBuffer<i32> = LineBuffer::new(4, 100);
    buffer.insert(b"ab", 0);
    buffer.insert(b"cd", 1);
    // written bytes equal the byte capacity exactly: everything still live
    assert_eq!(buffer.get(0), Some((&b"ab"[..], &0)));
    assert_eq!(buffer.get(1), Some((&b"cd"[..], &1)));
    buffer.insert(b"e", 2);
    assert_eq!(buffer.get(0), None);
    assert_eq!(buffer.get(1), Some((&b"cd"[..], &1)));
    assert_eq!(buffer.get(2), Some((&b"e"[..], &2)));
}

// A payload and tag inserted while capacity allows come back byte-exact.
#[test]
fn round_trip_payload_and_tag() {
    let mut buffer: LineBuffer<String> = LineBuffer::new(16, 4);
    buffer.insert(b"hello", String::from("greeting"));
    let got = buffer.get(0).unwrap();
    assert_eq!(got.0, b"hello");
    assert_eq!(got.1, "greeting");
    let empty = [0u8; 0];
    buffer.insert(&empty, String::from("nothing"));
    let got2 = buffer.get(1).unwrap();
    assert_eq!(got2.0, &empty[0..0]);
    assert_eq!(got2.1, "nothing");
}

// The iterator yields, in order, exactly the records get() reports live.
#[test]
fn iter_agrees_with_get() {
    let mut buffer: LineBuffer<i32> = LineBuffer::new(9, 6);
    for i in 0i32..16 {
        buffer.insert(format!("{}", i).as_bytes(), i);
    }
    let mut expected: Vec<(Vec<u8>, i32)> = Vec::new();
    for i in 0usize..buffer.elements() {
        if let Some((data, flag)) = buffer.get(i) {
            expected.push((data.to_vec(), *flag));
        }
    }
    let mut yielded: Vec<(Vec<u8>, i32)> = Vec::new();
    let mut it = buffer.iter();
    while let Some((data, flag)) = it.next() {
        yielded.push((data.to_vec(), *flag));
    }
    assert!(!yielded.is_empty());
    assert_eq!(yielded, expected);
}

// Two zero-length records inserted back to back stay distinct entries.
#[test]
fn insert_two_empty_records() {
    let mut buffer: LineBuffer<i32> = LineBuffer::new(9, 8);
    let empty = [0u8; 0];
    buffer.insert(&empty, 1);
    buffer.insert(&empty, 2);
    assert_eq!(buffer.get(0), Some((&empty[0..0], &1)));
    assert_eq!(buffer.get(1), Some((&empty[0..0], &2)));
    assert_eq!(buffer.get(2), None);
}

// A buffer of zero data bytes still indexes empty records.
#[test]
fn zero_byte_capacity_keeps_empty_records() {
    let mut buffer: LineBuffer<i32> = LineBuffer::new(0, 2);
    let empty = [0u8; 0];
    buffer.insert(&empty, 5);
    assert_eq!(buffer.get(0), Some((&empty[0..0], &5)));
    assert_eq!(buffer.capacity_bytes(), 0);
}

#[test]
fn accessors_report_configuration() {
    let mut buffer: LineBuffer<i32> = LineBuffer::new(32, 4);
    assert_eq!(buffer.capacity(), 4);
    assert_eq!(buffer.capacity_bytes(), 32);
    assert_eq!(buffer.elements(), 0);
    buffer.insert(b"xy", 1);
    buffer.insert(b"z", 2);
    assert_eq!(buffer.elements(), 2);
    let it = buffer.iter();
    assert_eq!(it.size_hint(), (1, Some(2)));
}

#[test]
fn get_all_data_shows_backing_bytes() {
    let mut buffer: LineBuffer<i32> = LineBuffer::new(4, 4);
    buffer.insert(b"ab", 0);
    assert_eq!(buffer.get_all_data(), "ab\u{0}\u{0}");
}

// Ill-formed UTF-8 in the backing bytes comes out as replacement characters,
// not as the raw bytes.
#[test]
fn get_all_data_replaces_invalid_utf8() {
    let mut buffer: LineBuffer<i32> = LineBuffer::new(2, 1);
    buffer.insert(&[0xFF], 0);
    assert_eq!(buffer.get_all_data(), "\u{FFFD}\u{0}");
}
