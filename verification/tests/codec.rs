use sanity_gc::codec::{
    decode_edge, decode_object, decode_root, decode_space, encode_edge, encode_object,
    encode_root, encode_space, CodecError,
};
use sanity_gc::heapdump::{HeapDump, HeapObject, NormalEdge, RootEdge, Space};
use sanity_gc::varint::{read_varint, varint_len};
use sanity_gc::wire::{put_bytes_field, put_varint_field, read_field, read_fields, Field};

fn sample() -> HeapDump {
    HeapDump {
        objects: vec![
            HeapObject {
                start: 0x1000,
                klass: 7,
                size: 24,
                objarray_length: None,
                instance_mirror_start: None,
                instance_mirror_count: None,
                edges: vec![NormalEdge { slot: 0x1008, objref: 0x1040 }],
            },
            HeapObject {
                start: 0x1040,
                klass: 7,
                size: 16,
                objarray_length: None,
                instance_mirror_start: None,
                instance_mirror_count: None,
                edges: vec![],
            },
        ],
        roots: vec![RootEdge { objref: 0x1000 }],
        spaces: vec![Space { name: "old".to_string(), start: 0x1000, end: 0x2000 }],
    }
}

#[test]
fn a_root_is_written_as_a_key_and_a_number() {
    assert_eq!(encode_root(&RootEdge { objref: 1 }), vec![0x08, 0x01]);
    assert_eq!(encode_root(&RootEdge { objref: 300 }), vec![0x08, 0xac, 0x02]);
    assert_eq!(encode_root(&RootEdge { objref: 0 }), Vec::<u8>::new());
    assert_eq!(
        encode_root(&RootEdge { objref: u64::MAX }),
        vec![0x08, 0xff, 0xff, 0xff, 0xff, 0xff, 0xff, 0xff, 0xff, 0xff, 0x01]
    );
}

#[test]
fn a_root_is_read_from_its_shortest_form_only() {
    assert_eq!(decode_root(&[0x08, 0xac, 0x02]), Some(RootEdge { objref: 300 }));
    assert_eq!(decode_root(&[]), Some(RootEdge { objref: 0 }));
    // a zero that was written
    assert_eq!(decode_root(&[0x08, 0x00]), None);
    // more bytes than the number needs
    assert_eq!(decode_root(&[0x08, 0xac, 0x82, 0x00]), None);
    // a key written long
    assert_eq!(decode_root(&[0x88, 0x00, 0x01]), None);
    // cut short
    assert_eq!(decode_root(&[0x08, 0xac]), None);
    assert_eq!(decode_root(&[0x08]), None);
    // another field
    assert_eq!(decode_root(&[0x10, 0x01]), None);
    // another kind of field
    assert_eq!(decode_root(&[0x0a, 0x00]), None);
    // the field twice
    assert_eq!(decode_root(&[0x08, 0x01, 0x08, 0x01]), None);
    // eleven bytes
    assert_eq!(
        decode_root(&[0x08, 0xff, 0xff, 0xff, 0xff, 0xff, 0xff, 0xff, 0xff, 0xff, 0x81, 0x00]),
        None
    );
    // a tenth byte with more than one bit
    assert_eq!(
        decode_root(&[0x08, 0xff, 0xff, 0xff, 0xff, 0xff, 0xff, 0xff, 0xff, 0xff, 0x02]),
        None
    );
    assert_eq!(
        decode_root(&[0x08, 0xff, 0xff, 0xff, 0xff, 0xff, 0xff, 0xff, 0xff, 0xff, 0x01]),
        Some(RootEdge { objref: u64::MAX })
    );
}

#[test]
fn numbers_are_read_with_their_end() {
    assert_eq!(read_varint(&[0x05, 0xac, 0x02, 0x07], 1), Some((300, 3)));
    assert_eq!(read_varint(&[0x05], 0), Some((5, 1)));
    assert_eq!(read_varint(&[0x05], 1), None);
    assert_eq!(read_varint(&[0x80, 0x00], 0), None);
    assert_eq!(varint_len(0), 1);
    assert_eq!(varint_len(127), 1);
    assert_eq!(varint_len(128), 2);
    assert_eq!(varint_len(16383), 2);
    assert_eq!(varint_len(16384), 3);
    assert_eq!(varint_len(u64::MAX), 10);
}

#[test]
fn fields_are_written_and_read() {
    let mut buf = vec![0xee];
    put_varint_field(&mut buf, 4, 0);
    put_bytes_field(&mut buf, 7, &[1, 2, 3]);
    put_varint_field(&mut buf, 16, 130);
    assert_eq!(buf, vec![0xee, 0x20, 0x00, 0x3a, 0x03, 1, 2, 3, 0x80, 0x01, 0x82, 0x01]);
    match read_field(&buf, 1) {
        Some((Field::Varint { number: 4, value: 0 }, 3)) => {}
        other => panic!("{:?}", other),
    }
    match read_field(&buf, 3) {
        Some((Field::Bytes { number: 7, payload }, 8)) => assert_eq!(payload, &[1, 2, 3]),
        other => panic!("{:?}", other),
    }
    let fields = read_fields(&buf[1..]).unwrap();
    assert_eq!(fields.len(), 3);
    match fields[2] {
        Field::Varint { number: 16, value: 130 } => {}
        other => panic!("{:?}", other),
    }
    // a run of bytes longer than what is left
    assert!(read_field(&[0x3a, 0x04, 1, 2, 3], 0).is_none());
    // a field without a number
    assert!(read_field(&[0x00, 0x01], 0).is_none());
    // a kind that is not in use
    assert!(read_field(&[0x09, 0x01], 0).is_none());
    assert!(read_fields(&buf).is_none());
    assert_eq!(read_fields(&[]).unwrap().len(), 0);
}

#[test]
fn an_edge_is_two_numbers() {
    let edge = NormalEdge { slot: 0x1008, objref: 0x1040 };
    assert_eq!(encode_edge(&edge), vec![0x08, 0x88, 0x20, 0x10, 0xc0, 0x20]);
    assert_eq!(decode_edge(&[0x08, 0x88, 0x20, 0x10, 0xc0, 0x20]), Some(edge));
    assert_eq!(encode_edge(&NormalEdge { slot: 0, objref: 5 }), vec![0x10, 0x05]);
    assert_eq!(decode_edge(&[0x10, 0x05]), Some(NormalEdge { slot: 0, objref: 5 }));
    assert_eq!(decode_edge(&[]), Some(NormalEdge { slot: 0, objref: 0 }));
    // out of order
    assert_eq!(decode_edge(&[0x10, 0x05, 0x08, 0x01]), None);
}

#[test]
fn a_space_has_a_name() {
    let space = Space { name: "old".to_string(), start: 0x1000, end: 0x2000 };
    let bytes = encode_space(&space);
    assert_eq!(bytes, vec![0x0a, 0x03, b'o', b'l', b'd', 0x10, 0x80, 0x20, 0x18, 0x80, 0x40]);
    assert_eq!(decode_space(&bytes), Some(space));
    let bare = Space { name: String::new(), start: 0, end: 9 };
    assert_eq!(encode_space(&bare), vec![0x18, 0x09]);
    assert_eq!(decode_space(&[0x18, 0x09]), Some(bare));
    let wide = Space { name: "h\u{e9}\u{4e16}\u{1f600}".to_string(), start: 1, end: 2 };
    assert_eq!(decode_space(&encode_space(&wide)), Some(wide));
    // a name that is no text
    assert_eq!(decode_space(&[0x0a, 0x02, 0xff, 0xfe]), None);
    // an empty name that was written
    assert_eq!(decode_space(&[0x0a, 0x00]), None);
}

#[test]
fn an_object_record_keeps_what_may_be_absent() {
    let object = HeapObject {
        start: 0x1040,
        klass: 0,
        size: 40,
        objarray_length: Some(0),
        instance_mirror_start: None,
        instance_mirror_count: Some(3),
        edges: vec![NormalEdge { slot: 0x1058, objref: 0 }, NormalEdge { slot: 0, objref: 0 }],
    };
    let bytes = encode_object(&object);
    assert_eq!(
        bytes,
        vec![0x08, 0xc0, 0x20, 0x18, 0x28, 0x20, 0x00, 0x30, 0x03, 0x3a, 0x03, 0x08, 0xd8, 0x20, 0x3a, 0x00]
    );
    assert_eq!(decode_object(&bytes), Some(object));
    // an edge that does not read
    assert_eq!(decode_object(&[0x3a, 0x02, 0x08, 0x00]), None);
    // a field after the edges
    assert_eq!(decode_object(&[0x3a, 0x00, 0x08, 0x01]), None);
}

#[test]
fn a_capture_round_trips() {
    let dump = sample();
    let bytes = dump.encode();
    assert_eq!(HeapDump::decode(&bytes), Ok(dump));
    let empty = HeapDump::new();
    assert_eq!(empty.encode(), Vec::<u8>::new());
    assert_eq!(HeapDump::decode(&[]), Ok(empty));
}

#[test]
fn a_capture_with_many_edges_round_trips() {
    let mut dump = sample();
    let mut edges = vec![];
    for i in 0..1000u64 {
        edges.push(NormalEdge { slot: 0x1_0000 + 8 * i, objref: (i * 0x9e37_79b9_7f4a_7c15) | 1 });
    }
    edges.push(NormalEdge { slot: u64::MAX, objref: u64::MAX });
    dump.objects.push(HeapObject {
        start: u64::MAX,
        klass: u64::MAX,
        size: u64::MAX,
        objarray_length: Some(u64::MAX),
        instance_mirror_start: Some(0),
        instance_mirror_count: Some(u64::MAX),
        edges,
    });
    for i in 0..100u64 {
        dump.roots.push(RootEdge { objref: i << 40 });
        dump.spaces.push(Space { name: format!("space-{}", i), start: i, end: 0 });
    }
    let bytes = dump.encode();
    assert_eq!(HeapDump::decode(&bytes), Ok(dump.clone()));
    let stored = dump.dump_to_bytes().unwrap();
    assert_eq!(HeapDump::load_from_bytes(&stored), Ok(dump));
}

#[test]
fn the_stored_form_of_a_capture() {
    let dump = sample();
    let bytes = dump.encode();
    let mut expected = vec![];
    // the first object
    expected.extend([0x0a, 15, 0x08, 0x80, 0x20, 0x10, 0x07, 0x18, 0x18]);
    expected.extend([0x3a, 0x06, 0x08, 0x88, 0x20, 0x10, 0xc0, 0x20]);
    // the second object
    expected.extend([0x0a, 7, 0x08, 0xc0, 0x20, 0x10, 0x07, 0x18, 0x10]);
    // the root
    expected.extend([0x12, 3, 0x08, 0x80, 0x20]);
    // the space
    expected.extend([0x1a, 11, 0x0a, 0x03, b'o', b'l', b'd', 0x10, 0x80, 0x20, 0x18, 0x80, 0x40]);
    assert_eq!(bytes, expected);
}

#[test]
fn the_stored_form_agrees_with_the_message_encoding() {
    let mut expected = vec![];
    prost::encoding::uint64::encode(1, &0x1234_5678_9abc_u64, &mut expected);
    prost::encoding::uint64::encode(2, &77u64, &mut expected);
    assert_eq!(encode_edge(&NormalEdge { slot: 0x1234_5678_9abc, objref: 77 }), expected);
    let mut expected = vec![];
    prost::encoding::string::encode(1, &"young".to_string(), &mut expected);
    prost::encoding::uint64::encode(3, &5u64, &mut expected);
    assert_eq!(encode_space(&Space { name: "young".to_string(), start: 0, end: 5 }), expected);
}

#[test]
fn bytes_that_are_no_capture_are_refused() {
    assert_eq!(HeapDump::decode(&[0x08, 0x01]), Err(CodecError::Malformed));
    // a root before an object
    let mut swapped = vec![0x12, 0x00];
    swapped.extend([0x0a, 0x00]);
    assert_eq!(HeapDump::decode(&swapped), Err(CodecError::Malformed));
    assert_eq!(
        HeapDump::decode(&[0x0a, 0x00, 0x12, 0x00]),
        Ok(HeapDump {
            objects: vec![HeapObject {
                start: 0,
                klass: 0,
                size: 0,
                objarray_length: None,
                instance_mirror_start: None,
                instance_mirror_count: None,
                edges: vec![],
            }],
            roots: vec![RootEdge { objref: 0 }],
            spaces: vec![],
        })
    );
    // an object that does not read
    assert_eq!(HeapDump::decode(&[0x0a, 0x02, 0x08, 0x00]), Err(CodecError::Malformed));
    // a root that does not read
    assert_eq!(HeapDump::decode(&[0x12, 0x02, 0x10, 0x01]), Err(CodecError::Malformed));
    // a space that does not read
    assert_eq!(HeapDump::decode(&[0x1a, 0x02, 0x10, 0x00]), Err(CodecError::Malformed));
    // a field the capture does not have
    assert_eq!(HeapDump::decode(&[0x22, 0x00]), Err(CodecError::Malformed));
    // cut short
    let bytes = sample().encode();
    assert_eq!(HeapDump::decode(&bytes[..bytes.len() - 1]), Err(CodecError::Malformed));
}

#[test]
fn a_stored_capture_is_compressed() {
    let dump = sample();
    let plain = dump.encode();
    let stored = dump.dump_to_bytes().unwrap();
    assert_eq!(&stored[..4], &[0x28, 0xb5, 0x2f, 0xfd]);
    assert_ne!(stored, plain);
    assert_eq!(zstd::stream::decode_all(&stored[..]).unwrap(), plain);
    assert_eq!(HeapDump::load_from_bytes(&stored), Ok(dump));
    assert_eq!(HeapDump::new().dump_to_bytes().map(|b| HeapDump::load_from_bytes(&b)), Ok(Ok(HeapDump::new())));
}

#[test]
fn a_frame_that_does_not_decompress_is_refused() {
    assert_eq!(HeapDump::load_from_bytes(&[1, 2, 3, 4, 5]), Err(CodecError::Compression));
    assert_eq!(HeapDump::load_from_bytes(&sample().encode()), Err(CodecError::Compression));
}

#[test]
fn a_frame_that_holds_no_capture_is_refused() {
    let frame = zstd::stream::encode_all(&[0x08u8, 0x01][..], 0).unwrap();
    assert_eq!(HeapDump::load_from_bytes(&frame), Err(CodecError::Malformed));
}
