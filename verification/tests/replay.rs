use sanity_gc::closure::{replay, ReplayReport};
use sanity_gc::heapdump::{HeapDump, HeapObject, NormalEdge, RootEdge, Space};
use sanity_gc::image::{HeapImage, ObjectHeader, ReplayError};
use sanity_gc::tib::{compact, OopMapBlock, Tib, TibCache};
use std::collections::VecDeque;

fn scalar(start: u64, klass: u64, size: u64, edges: &[(u64, u64)]) -> HeapObject {
    HeapObject {
        start,
        klass,
        size,
        objarray_length: None,
        instance_mirror_start: None,
        instance_mirror_count: None,
        edges: edges.iter().map(|(slot, objref)| NormalEdge { slot: *slot, objref: *objref }).collect(),
    }
}

fn array(start: u64, klass: u64, elements: &[u64]) -> HeapObject {
    HeapObject {
        start,
        klass,
        size: 24 + 8 * elements.len() as u64,
        objarray_length: Some(elements.len() as u64),
        instance_mirror_start: None,
        instance_mirror_count: None,
        edges: elements
            .iter()
            .enumerate()
            .map(|(i, objref)| NormalEdge { slot: start + 24 + 8 * i as u64, objref: *objref })
            .collect(),
    }
}

fn old_space() -> Space {
    Space { name: "old".to_string(), start: 0x1000, end: 0x2000 }
}

fn two_objects() -> HeapDump {
    HeapDump {
        objects: vec![scalar(0x1000, 7, 24, &[(0x1008, 0x1040)]), scalar(0x1040, 7, 16, &[])],
        roots: vec![RootEdge { objref: 0x1000 }],
        spaces: vec![old_space()],
    }
}

#[test]
fn two_objects_and_one_root() {
    let dump = two_objects();
    let mut image = HeapImage::reconstruct(&dump).unwrap();
    // the range is mapped, and nothing else
    assert!(image.is_readable(0x1000));
    assert!(image.is_readable(0x1ff8));
    assert!(!image.is_readable(0x2000));
    assert!(!image.is_readable(0x0ff8));
    assert!(!image.is_readable(0x1004));
    // both objects carry the block of class 7, built from the first
    assert_eq!(image.header(0x1000), Some(ObjectHeader { mark: 0, tib: 7, length: 0 }));
    assert_eq!(image.header(0x1040), Some(ObjectHeader { mark: 0, tib: 7, length: 0 }));
    assert_eq!(
        image.tib(7),
        Some(&Tib { is_objarray: false, oop_map_blocks: vec![OopMapBlock { offset: 8, count: 1 }] })
    );
    // the one edge is written
    assert_eq!(image.read(0x1008), 0x1040);
    assert_eq!(image.read(0x1048), 0);
    assert_eq!(image.object_count(), 2);

    assert_eq!(image.transitive_closure(&dump.roots), Ok(2));
    assert_ne!(image.header(0x1000).unwrap().mark, 0);
    assert_ne!(image.header(0x1040).unwrap().mark, 0);
    // a second closure finds everything marked
    assert_eq!(image.transitive_closure(&dump.roots), Ok(0));

    assert_eq!(replay(&dump), Ok(ReplayReport { objects: 2, marked: 2 }));
}

#[test]
fn a_stored_capture_is_replayed() {
    let stored = two_objects().dump_to_bytes().unwrap();
    let dump = HeapDump::load_from_bytes(&stored).unwrap();
    assert_eq!(replay(&dump), Ok(ReplayReport { objects: 2, marked: 2 }));
}

#[test]
fn the_closure_follows_arrays_and_cycles() {
    let dump = HeapDump {
        objects: vec![
            array(0x1000, 1, &[0x1100, 0, 0x1200, 0x1100]),
            scalar(0x1100, 2, 32, &[(0x1108, 0x1000), (0x1110, 0x1100), (0x1118, 0)]),
            scalar(0x1200, 3, 16, &[]),
            scalar(0x1300, 2, 32, &[(0x1308, 0x1000), (0x1310, 0), (0x1318, 0x1200)]),
            array(0x1400, 1, &[]),
        ],
        roots: vec![RootEdge { objref: 0 }, RootEdge { objref: 0x1000 }, RootEdge { objref: 0x1000 }],
        spaces: vec![old_space()],
    };
    let mut image = HeapImage::reconstruct(&dump).unwrap();
    assert_eq!(image.header(0x1000), Some(ObjectHeader { mark: 0, tib: 1, length: 4 }));
    assert_eq!(image.tib(1), Some(&Tib { is_objarray: true, oop_map_blocks: vec![] }));
    assert_eq!(
        image.tib(2),
        Some(&Tib { is_objarray: false, oop_map_blocks: vec![OopMapBlock { offset: 8, count: 3 }] })
    );
    assert_eq!(image.transitive_closure(&dump.roots), Ok(3));
    assert_ne!(image.header(0x1200).unwrap().mark, 0);
    assert_eq!(image.header(0x1300).unwrap().mark, 0);
    assert_eq!(image.header(0x1400).unwrap().mark, 0);
    assert_eq!(
        image.transitive_closure(&[RootEdge { objref: 0x1300 }, RootEdge { objref: 0x1400 }]),
        Ok(2)
    );
    assert_eq!(replay(&dump), Ok(ReplayReport { objects: 5, marked: 3 }));
}

#[test]
fn tracing_marks_once() {
    let mut image = HeapImage::reconstruct(&two_objects()).unwrap();
    assert_eq!(image.trace_object(0), Ok(false));
    assert_eq!(image.trace_object(0x1040), Ok(true));
    assert_eq!(image.trace_object(0x1040), Ok(false));
    assert_eq!(image.trace_object(0x1048), Err(ReplayError::NullTib { object: 0x1048 }));
    let mut queue = VecDeque::new();
    queue.push_back(5);
    assert_eq!(image.scan_object(0x1000, &mut queue), Ok(()));
    assert_eq!(queue, VecDeque::from(vec![5, 0x1040]));
    assert_eq!(image.scan_object(0x1040, &mut queue), Ok(()));
    assert_eq!(queue, VecDeque::from(vec![5, 0x1040, 0]));
    assert_eq!(image.scan_object(0x1010, &mut queue), Err(ReplayError::NullTib { object: 0x1010 }));
}

#[test]
fn a_dangling_reference_stops_the_closure() {
    let mut dump = two_objects();
    dump.objects[0].edges[0].objref = 0x1800;
    let mut image = HeapImage::reconstruct(&dump).unwrap();
    assert_eq!(
        image.transitive_closure(&dump.roots),
        Err(ReplayError::NullTib { object: 0x1800 })
    );
    assert_eq!(replay(&dump), Err(ReplayError::NullTib { object: 0x1800 }));
    assert_eq!(
        image.transitive_closure(&[RootEdge { objref: 0x4000 }]),
        Err(ReplayError::NullTib { object: 0x4000 })
    );
}

#[test]
fn a_field_outside_the_ranges_stops_the_closure() {
    // the second object is the last word of the range, and its class has a
    // reference one word on
    let dump = HeapDump {
        objects: vec![
            scalar(0x1000, 7, 24, &[(0x1010, 0x1ff0)]),
            scalar(0x1ff0, 7, 16, &[]),
        ],
        roots: vec![RootEdge { objref: 0x1000 }],
        spaces: vec![old_space()],
    };
    let mut image = HeapImage::reconstruct(&dump).unwrap();
    assert_eq!(
        image.transitive_closure(&dump.roots),
        Err(ReplayError::BadAddress { address: 0x2000 })
    );
    // an array that says it is longer than the range
    let mut long = array(0x1000, 1, &[0]);
    long.objarray_length = Some(0x1000);
    let dump = HeapDump {
        objects: vec![long],
        roots: vec![RootEdge { objref: 0x1000 }],
        spaces: vec![old_space()],
    };
    assert_eq!(replay(&dump), Err(ReplayError::BadAddress { address: 0x2000 }));
}

#[test]
fn spaces_are_mapped_side_by_side() {
    let mut image = HeapImage::new();
    assert_eq!(image.map_space(0x1000, 0x2000), Ok(()));
    assert_eq!(image.map_space(0x2000, 0x3000), Ok(()));
    assert_eq!(image.map_space(0x0, 0x1000), Ok(()));
    assert_eq!(image.map_space(0x1800, 0x1900), Err(ReplayError::MapFailed { start: 0x1800 }));
    assert_eq!(image.map_space(0x2fff, 0x4000), Err(ReplayError::MapFailed { start: 0x2fff }));
    assert_eq!(image.map_space(0x800, 0x4000), Err(ReplayError::MapFailed { start: 0x800 }));
    assert_eq!(image.map_space(0x5000, 0x5000), Err(ReplayError::MapFailed { start: 0x5000 }));
    assert_eq!(image.map_space(0x6000, 0x5000), Err(ReplayError::MapFailed { start: 0x6000 }));
    assert!(image.is_readable(0x2ff8));
    assert!(!image.is_readable(0x3000));
    // a word does not reach over the end of its range
    assert_eq!(image.map_space(0x7000, 0x7004), Ok(()));
    assert!(!image.is_readable(0x7000));
    assert_eq!(image.map_space(u64::MAX - 7, u64::MAX), Ok(()));
    assert!(!image.is_readable(u64::MAX - 7));

    let dump = HeapDump {
        objects: vec![],
        roots: vec![],
        spaces: vec![old_space(), Space { name: "again".to_string(), start: 0x1ff8, end: 0x3000 }],
    };
    assert_eq!(HeapImage::reconstruct(&dump).err(), Some(ReplayError::MapFailed { start: 0x1ff8 }));
    assert_eq!(replay(&dump), Err(ReplayError::MapFailed { start: 0x1ff8 }));
}

#[test]
fn fields_are_written_within_the_ranges() {
    let mut image = HeapImage::new();
    image.map_space(0x1000, 0x1010).unwrap();
    assert_eq!(image.write(0x1008, 9), Ok(()));
    assert_eq!(image.read(0x1008), 9);
    assert_eq!(image.write(0x1008, 10), Ok(()));
    assert_eq!(image.read(0x1008), 10);
    assert_eq!(image.read(0x1000), 0);
    assert_eq!(image.write(0x1010, 9), Err(ReplayError::BadAddress { address: 0x1010 }));
    assert_eq!(image.write(0x1004, 9), Err(ReplayError::BadAddress { address: 0x1004 }));
    assert_eq!(image.read(0x1010), 0);
}

#[test]
fn an_object_outside_the_ranges_is_not_placed() {
    let mut image = HeapImage::new();
    image.map_space(0x1000, 0x1020).unwrap();
    let outside = scalar(0x2000, 1, 16, &[]);
    assert_eq!(image.place_object(&outside), Err(ReplayError::BadAddress { address: 0x2000 }));
    let header_cut = scalar(0x1018, 1, 16, &[]);
    assert_eq!(image.place_object(&header_cut), Err(ReplayError::BadAddress { address: 0x1020 }));
    let mut length_cut = array(0x1010, 1, &[]);
    assert_eq!(image.place_object(&length_cut), Err(ReplayError::BadAddress { address: 0x1020 }));
    length_cut.objarray_length = None;
    assert_eq!(image.place_object(&length_cut), Ok(()));
    let bad_edge = scalar(0x1000, 2, 16, &[(0x1008, 1), (0x1021, 2), (0x3000, 3)]);
    assert_eq!(image.place_object(&bad_edge), Err(ReplayError::BadAddress { address: 0x1021 }));
    // nothing of it was written
    assert_eq!(image.read(0x1008), 0);
    assert_eq!(image.header(0x1000), None);
    assert!(image.tib(2).is_none());
    assert_eq!(image.object_count(), 1);
    assert_eq!(
        HeapImage::reconstruct(&HeapDump {
            objects: vec![scalar(0x1000, 1, 16, &[]), outside],
            roots: vec![],
            spaces: vec![old_space()],
        })
        .err(),
        Some(ReplayError::BadAddress { address: 0x2000 })
    );
}

#[test]
fn placing_an_object_again_clears_its_mark() {
    let dump = two_objects();
    let mut image = HeapImage::reconstruct(&dump).unwrap();
    image.set_mark(0x1000);
    assert_ne!(image.header(0x1000).unwrap().mark, 0);
    image.place_object(&array(0x1000, 9, &[0x1040])).unwrap();
    assert_eq!(image.header(0x1000), Some(ObjectHeader { mark: 0, tib: 9, length: 1 }));
    assert_eq!(image.read(0x1018), 0x1040);
    assert_eq!(image.read(0x1008), 0x1040);
    assert_eq!(image.object_count(), 2);
}

#[test]
fn offsets_are_compacted_into_runs() {
    let object = scalar(
        0x1000,
        1,
        0x100,
        &[(0x1008, 1), (0x1010, 2), (0x1018, 3), (0x1028, 4), (0x1030, 5), (0x1040, 6)],
    );
    let blocks = compact(&object);
    assert_eq!(
        blocks,
        vec![
            OopMapBlock { offset: 8, count: 3 },
            OopMapBlock { offset: 0x28, count: 2 },
            OopMapBlock { offset: 0x40, count: 1 },
        ]
    );
    let mut offsets = vec![];
    for block in &blocks {
        for i in 0..block.count {
            offsets.push(block.offset + 8 * i);
        }
    }
    assert_eq!(offsets, vec![8, 0x10, 0x18, 0x28, 0x30, 0x40]);
    assert_eq!(compact(&scalar(0x1000, 1, 8, &[])), vec![]);
}

#[test]
fn only_one_word_after_the_run_continues_it() {
    // not in order, twice the same, four bytes apart, at the start
    let object = scalar(
        0x1000,
        1,
        0x100,
        &[(0x1010, 1), (0x1008, 2), (0x1008, 3), (0x100c, 4), (0x1014, 5), (0x1000, 7)],
    );
    assert_eq!(
        compact(&object),
        vec![
            OopMapBlock { offset: 0x10, count: 1 },
            OopMapBlock { offset: 8, count: 1 },
            OopMapBlock { offset: 8, count: 1 },
            OopMapBlock { offset: 0xc, count: 2 },
            OopMapBlock { offset: 0, count: 1 },
        ]
    );
}

#[test]
fn a_block_is_built_once_for_a_class() {
    let mut cache = TibCache::new();
    assert!(Tib::non_objarray(&mut cache, 7, &scalar(0x1000, 7, 24, &[(0x1008, 1)])));
    assert!(!Tib::non_objarray(&mut cache, 7, &scalar(0x2000, 7, 24, &[(0x2010, 1)])));
    assert!(!Tib::objarray(&mut cache, 7));
    assert_eq!(
        cache.get(7),
        Some(&Tib { is_objarray: false, oop_map_blocks: vec![OopMapBlock { offset: 8, count: 1 }] })
    );
    assert!(Tib::objarray(&mut cache, 8));
    assert_eq!(cache.get(8), Some(&Tib { is_objarray: true, oop_map_blocks: vec![] }));
    let mut calls = 0;
    assert!(!Tib::insert_with_cache(&mut cache, 8, || {
        calls += 1;
        Tib { is_objarray: false, oop_map_blocks: vec![] }
    }));
    assert_eq!(calls, 0);
    assert!(Tib::insert_with_cache(&mut cache, 9, || {
        calls += 1;
        Tib { is_objarray: false, oop_map_blocks: vec![OopMapBlock { offset: 16, count: 2 }] }
    }));
    assert_eq!(calls, 1);
    assert_eq!(cache.len(), 3);
    assert!(cache.get(10).is_none());
}

#[test]
fn a_field_before_its_object_is_refused() {
    let dump = HeapDump {
        objects: vec![scalar(0x1100, 4, 16, &[(0x10f8, 0x1200)]), scalar(0x1200, 5, 16, &[])],
        roots: vec![RootEdge { objref: 0x1100 }],
        spaces: vec![old_space()],
    };
    assert_eq!(replay(&dump), Err(ReplayError::BadAddress { address: 0x10f8 }));
    let mut image = HeapImage::new();
    image.map_space(0x1000, 0x2000).unwrap();
    assert_eq!(
        image.place_object(&array(0x1100, 4, &[0x1200]).clone()),
        Ok(())
    );
    let mut before = array(0x1200, 4, &[0x1100]);
    before.edges[0].slot = 0x11f8;
    assert_eq!(image.place_object(&before), Err(ReplayError::BadAddress { address: 0x11f8 }));
    assert_eq!(image.header(0x1200), None);
}
