use sanity_gc::heapdump::{NormalEdge, RootEdge, Space};
use sanity_gc::host::{CommonSpace, Plan, VMBinding};
use sanity_gc::process_edges::{
    classify, kind_of, passes_checks, SanityGCProcessEdges, WorkBucketStage,
};
use sanity_gc::sanity_checker::{capture_file_name, SanityChecker, SanityError};
use sanity_gc::sanity_work::{
    prepare_notices, release_notices, SanityAction, SanityPrepare, SanityRelease, ScheduleSanityGC,
};
use sanity_gc::shapes::{signed_offset, Kind};
use sanity_gc::heapdump::HeapDump;
use std::collections::HashMap;

/// A heap of a few objects, each with its reference slots.
struct ToyHeap {
    /// object -> (class, size, kind, slots)
    objects: HashMap<u64, (u64, u64, Kind, Vec<u64>)>,
    /// slot -> target
    slots: HashMap<u64, u64>,
    mirrors: HashMap<u64, (u64, u64)>,
    insane: Vec<u64>,
    unset_bits: Option<Vec<u64>>,
    spaces: Vec<CommonSpace>,
    prepare_mutators: bool,
}

impl ToyHeap {
    fn new() -> ToyHeap {
        ToyHeap {
            objects: HashMap::new(),
            slots: HashMap::new(),
            mirrors: HashMap::new(),
            insane: vec![],
            unset_bits: None,
            spaces: vec![],
            prepare_mutators: true,
        }
    }

    fn object(&mut self, at: u64, class: u64, size: u64, kind: Kind, fields: &[(u64, u64)]) {
        let mut slots = vec![];
        for (slot, target) in fields {
            slots.push(*slot);
            self.slots.insert(*slot, *target);
        }
        self.objects.insert(at, (class, size, kind, slots));
    }

    fn root(&mut self, slot: u64, target: u64) {
        self.slots.insert(slot, target);
    }
}

impl Plan for ToyHeap {
    fn is_sane(&self, object: u64) -> bool {
        object % 8 == 0
    }

    fn sanity_check_object(&self, object: u64) -> bool {
        self.objects.contains_key(&object)
    }

    fn vo_bit(&self, object: u64) -> Option<bool> {
        self.unset_bits.as_ref().map(|unset| !unset.contains(&object))
    }

    fn needs_prepare_mutator(&self) -> bool {
        self.prepare_mutators
    }

    fn spaces(&self) -> Vec<CommonSpace> {
        self.spaces.clone()
    }
}

impl VMBinding for ToyHeap {
    fn load_edge(&self, slot: u64) -> u64 {
        *self.slots.get(&slot).unwrap_or(&0)
    }

    fn is_object_sane(&self, object: u64) -> bool {
        !self.insane.contains(&object)
    }

    fn is_val_array(&self, object: u64) -> bool {
        self.objects[&object].2 == Kind::ValArray
    }

    fn is_obj_array(&self, object: u64) -> bool {
        self.objects[&object].2 == Kind::ObjArray
    }

    fn scan_object(&self, object: u64) -> Vec<u64> {
        self.objects[&object].3.clone()
    }

    fn instance_mirror_info(&self, object: u64) -> Option<(u64, u64)> {
        self.mirrors.get(&object).copied()
    }

    fn get_klass(&self, object: u64) -> u64 {
        self.objects[&object].0
    }

    fn get_current_size(&self, object: u64) -> u64 {
        self.objects[&object].1
    }
}

/// A heap of five objects, one of which no root reaches.
fn small_heap() -> ToyHeap {
    let mut heap = ToyHeap::new();
    heap.object(0x1000, 7, 24, Kind::Scalar, &[(0x1008, 0x1040), (0x1010, 0)]);
    heap.object(0x1040, 9, 40, Kind::ObjArray, &[(0x1058, 0x1080), (0x1060, 0x1000)]);
    heap.object(0x1080, 3, 32, Kind::ValArray, &[]);
    heap.object(0x10c0, 7, 24, Kind::Scalar, &[(0x10c8, 0x1080), (0x10d0, 0x1040)]);
    heap.object(0x1100, 7, 24, Kind::Scalar, &[(0x1108, 0x1000)]);
    heap.root(0x8000, 0x1000);
    heap.root(0x8008, 0);
    heap.root(0x8010, 0x10c0);
    heap
}

/// Runs the closure to its end in the way a scheduler would: batch after
/// batch, scanning what each batch marked.
fn run_closure(
    checker: &mut SanityChecker,
    heap: &ToyHeap,
    in_harness: bool,
    first: Vec<SanityGCProcessEdges>,
) -> Result<(), SanityError> {
    let mut batches = first;
    while let Some(mut work) = batches.pop() {
        work.process_edges(checker, heap, heap, in_harness)?;
        if let Some(scan) = work.flush() {
            assert!(!scan.roots);
            assert_eq!(scan.bucket, WorkBucketStage::Closure);
            let mut edges = vec![];
            for node in scan.nodes {
                edges.extend(VMBinding::scan_object(heap, node));
            }
            batches.push(SanityGCProcessEdges::new(edges, false, WorkBucketStage::Closure));
        }
    }
    Ok(())
}

#[test]
fn tracing_an_edge_twice_marks_once() {
    let mut heap = ToyHeap::new();
    heap.object(0x1000, 7, 24, Kind::Scalar, &[(0x1008, 0x1040)]);
    heap.object(0x1040, 7, 16, Kind::Scalar, &[]);
    let mut checker = SanityChecker::new();
    checker.begin_pass(true);
    let mut work = SanityGCProcessEdges::new(vec![], false, WorkBucketStage::Closure);
    assert_eq!(work.trace_object(&mut checker, &heap, &heap, true, 0x1000), Ok(0x1000));
    assert_eq!(work.trace_object(&mut checker, &heap, &heap, true, 0x1000), Ok(0x1000));
    assert_eq!(checker.marked_count(), 1);
    assert_eq!(work.nodes(), &vec![0x1000]);
    let capture = checker.capture();
    assert_eq!(capture.objects.len(), 1);
    assert_eq!(capture.objects[0].start, 0x1000);
    assert_eq!(capture.objects[0].klass, 7);
    assert_eq!(capture.objects[0].size, 24);
    assert_eq!(capture.objects[0].objarray_length, None);
    assert_eq!(capture.objects[0].edges, vec![NormalEdge { slot: 0x1008, objref: 0x1040 }]);
    let shapes = checker.shapes();
    assert_eq!(shapes.epochs.len(), 1);
    assert_eq!(shapes.epochs[0].shapes.len(), 1);
    assert_eq!(shapes.epochs[0].shapes[0].kind, Kind::Scalar);
    assert_eq!(shapes.epochs[0].shapes[0].object, 0x1000);
    assert_eq!(shapes.epochs[0].shapes[0].offsets, vec![8]);
}

#[test]
fn the_same_edge_twice_in_a_batch_marks_once() {
    let heap = small_heap();
    let mut checker = SanityChecker::new();
    checker.begin_pass(true);
    let mut work =
        SanityGCProcessEdges::new(vec![0x8000, 0x8000, 0x8008], true, WorkBucketStage::Closure);
    assert_eq!(work.process_edges(&mut checker, &heap, &heap, true), Ok(()));
    assert_eq!(work.nodes(), &vec![0x1000]);
    assert_eq!(checker.marked_count(), 1);
    assert_eq!(checker.capture().objects.len(), 1);
    assert_eq!(work.edges(), &vec![0x8000, 0x8000, 0x8008]);
    assert!(work.roots());
    assert_eq!(work.bucket(), WorkBucketStage::Closure);
}

#[test]
fn a_null_reference_is_passed_over() {
    let heap = small_heap();
    let mut checker = SanityChecker::new();
    checker.begin_pass(true);
    let mut work = SanityGCProcessEdges::new(vec![], false, WorkBucketStage::Closure);
    assert_eq!(work.trace_object(&mut checker, &heap, &heap, true, 0), Ok(0));
    assert_eq!(checker.marked_count(), 0);
    assert!(work.nodes().is_empty());
    assert!(checker.capture().objects.is_empty());
    assert!(work.flush().is_none());
}

#[test]
fn an_insane_object_is_a_fault() {
    let mut heap = ToyHeap::new();
    heap.object(0x1000, 7, 24, Kind::Scalar, &[]);
    heap.insane.push(0x1000);
    let mut checker = SanityChecker::new();
    checker.begin_pass(false);
    let mut work = SanityGCProcessEdges::new(vec![], false, WorkBucketStage::Closure);
    assert_eq!(
        work.trace_object(&mut checker, &heap, &heap, false, 0x1000),
        Err(SanityError::InvalidReference { object: 0x1000 })
    );
    assert!(!checker.is_marked(0x1000));
    assert!(work.nodes().is_empty());
}

#[test]
fn each_sanity_check_can_fail_a_reference() {
    let heap = small_heap();
    let mut checker = SanityChecker::new();
    checker.begin_pass(false);
    let mut work = SanityGCProcessEdges::new(vec![], false, WorkBucketStage::Closure);
    // not aligned: the structural check
    assert_eq!(
        work.trace_object(&mut checker, &heap, &heap, false, 0x1004),
        Err(SanityError::InvalidReference { object: 0x1004 })
    );
    // no such object: the plan's check
    assert_eq!(
        work.trace_object(&mut checker, &heap, &heap, false, 0x2000),
        Err(SanityError::InvalidReference { object: 0x2000 })
    );
    assert_eq!(checker.marked_count(), 0);
}

#[test]
fn an_unset_valid_bit_is_a_fault_even_for_a_marked_object() {
    let mut heap = small_heap();
    let mut checker = SanityChecker::new();
    checker.begin_pass(false);
    let mut work = SanityGCProcessEdges::new(vec![], false, WorkBucketStage::Closure);
    heap.unset_bits = Some(vec![0x1080]);
    assert_eq!(work.trace_object(&mut checker, &heap, &heap, false, 0x1000), Ok(0x1000));
    assert_eq!(
        work.trace_object(&mut checker, &heap, &heap, false, 0x1080),
        Err(SanityError::ValidBitNotSet { object: 0x1080 })
    );
    assert!(!checker.is_marked(0x1080));
    heap.unset_bits = Some(vec![0x1000]);
    assert_eq!(
        work.trace_object(&mut checker, &heap, &heap, false, 0x1000),
        Err(SanityError::ValidBitNotSet { object: 0x1000 })
    );
    assert_eq!(checker.marked_count(), 1);
}

#[test]
fn a_profiled_trace_needs_an_open_epoch() {
    let heap = small_heap();
    let mut checker = SanityChecker::new();
    let mut work = SanityGCProcessEdges::new(vec![], false, WorkBucketStage::Closure);
    assert!(!checker.has_open_epoch());
    assert_eq!(
        work.trace_object(&mut checker, &heap, &heap, true, 0x1000),
        Err(SanityError::NoOpenEpoch)
    );
    assert_eq!(checker.marked_count(), 0);
    assert_eq!(work.trace_object(&mut checker, &heap, &heap, false, 0x1000), Ok(0x1000));
    assert!(checker.capture().objects.is_empty());
}

#[test]
fn vetting_follows_the_order_of_the_checks() {
    let mut checker = SanityChecker::new();
    let mut work = SanityGCProcessEdges::new(vec![], false, WorkBucketStage::Closure);
    assert_eq!(work.vet(&mut checker, 0, false, Some(false), true), Ok(false));
    assert_eq!(
        work.vet(&mut checker, 8, false, Some(false), true),
        Err(SanityError::InvalidReference { object: 8 })
    );
    assert_eq!(work.vet(&mut checker, 8, true, Some(false), true), Err(SanityError::NoOpenEpoch));
    assert_eq!(
        work.vet(&mut checker, 8, true, Some(false), false),
        Err(SanityError::ValidBitNotSet { object: 8 })
    );
    assert_eq!(work.vet(&mut checker, 8, true, Some(true), false), Ok(true));
    assert_eq!(work.vet(&mut checker, 8, false, None, false), Ok(false));
    assert_eq!(work.nodes(), &vec![8]);
    assert!(checker.is_marked(8));
}

#[test]
fn a_fault_in_a_batch_keeps_what_was_marked_before_it() {
    let mut heap = small_heap();
    heap.insane.push(0x10c0);
    let mut checker = SanityChecker::new();
    checker.begin_pass(true);
    let mut work =
        SanityGCProcessEdges::new(vec![0x8000, 0x8010, 0x8008], true, WorkBucketStage::Closure);
    assert_eq!(
        work.process_edges(&mut checker, &heap, &heap, true),
        Err(SanityError::InvalidReference { object: 0x10c0 })
    );
    assert_eq!(work.nodes(), &vec![0x1000]);
    assert!(checker.is_marked(0x1000));
    assert!(!checker.is_marked(0x10c0));
    assert_eq!(checker.capture().objects.len(), 1);
}

#[test]
fn classification_by_kind() {
    let edges = vec![
        NormalEdge { slot: 0x1008, objref: 0x2000 },
        NormalEdge { slot: 0x1018, objref: 0 },
        NormalEdge { slot: 0x0ff8, objref: 0x3000 },
    ];
    let (shape, record) = classify(0x1000, Kind::Scalar, edges.clone(), Some((0x40, 3)), 5, 48);
    assert_eq!(shape.kind, Kind::Scalar);
    assert_eq!(shape.object, 0x1000);
    assert_eq!(shape.offsets, vec![8, 24, -8]);
    assert_eq!(record.start, 0x1000);
    assert_eq!(record.klass, 5);
    assert_eq!(record.size, 48);
    assert_eq!(record.objarray_length, None);
    assert_eq!(record.instance_mirror_start, Some(0x40));
    assert_eq!(record.instance_mirror_count, Some(3));
    assert_eq!(record.edges, edges);

    let (shape, record) = classify(0x1000, Kind::ObjArray, edges.clone(), Some((0x40, 3)), 5, 48);
    assert_eq!(shape.kind, Kind::ObjArray);
    assert!(shape.offsets.is_empty());
    assert_eq!(record.objarray_length, Some(3));
    assert_eq!(record.instance_mirror_start, None);
    assert_eq!(record.instance_mirror_count, None);
    assert_eq!(record.edges, edges);

    let (shape, record) = classify(0x1000, Kind::ValArray, edges, None, 5, 48);
    assert_eq!(shape.kind, Kind::ValArray);
    assert!(shape.offsets.is_empty());
    assert_eq!(record.objarray_length, None);
    assert!(record.edges.is_empty());
}

#[test]
fn signed_offsets_wrap_round() {
    assert_eq!(signed_offset(0x1008, 0x1000), 8);
    assert_eq!(signed_offset(0x1000, 0x1008), -8);
    assert_eq!(signed_offset(5, 5), 0);
    assert_eq!(signed_offset(u64::MAX, 0), -1);
    assert_eq!(signed_offset(0, u64::MAX), 1);
    assert_eq!(signed_offset(0x8000_0000_0000_0000, 0), i64::MIN);
    assert_eq!(signed_offset(0x7fff_ffff_ffff_ffff, 0), i64::MAX);
    assert_eq!(signed_offset(0, 0x8000_0000_0000_0000), i64::MIN);
}

#[test]
fn a_finished_pass_captures_all_that_the_roots_reach() {
    let heap = small_heap();
    let plan: &'static ToyHeap = Box::leak(Box::new(small_heap()));
    let mut checker = SanityChecker::new();
    checker.add_root_edges(vec![0x8000, 0x8008]);
    checker.add_root_edges(vec![0x8010]);
    let actions = ScheduleSanityGC::new(plan).do_work(&mut checker, &heap, false, true).unwrap();
    let mut batches = vec![];
    for action in actions {
        if let SanityAction::TraceRoots(work) = action {
            batches.push(work);
        }
    }
    assert_eq!(batches.len(), 2);
    SanityPrepare::new(plan).do_work(&mut checker, true, 0, 0);
    run_closure(&mut checker, &heap, true, batches).unwrap();

    let capture = checker.capture();
    let mut starts: Vec<u64> = capture.objects.iter().map(|o| o.start).collect();
    starts.sort();
    assert_eq!(starts, vec![0x1000, 0x1040, 0x1080, 0x10c0]);
    assert_eq!(checker.marked_count(), 4);
    assert!(!checker.is_marked(0x1100));
    for object in &capture.objects {
        for edge in &object.edges {
            assert!(edge.objref == 0 || starts.contains(&edge.objref));
        }
    }
    assert_eq!(
        capture.roots,
        vec![RootEdge { objref: 0x1000 }, RootEdge { objref: 0 }, RootEdge { objref: 0x10c0 }]
    );
    let array = capture.objects.iter().find(|o| o.start == 0x1040).unwrap();
    assert_eq!(array.objarray_length, Some(2));
    assert_eq!(array.klass, 9);
    assert_eq!(array.size, 40);
    let values = capture.objects.iter().find(|o| o.start == 0x1080).unwrap();
    assert!(values.edges.is_empty());
    assert_eq!(checker.shapes().epochs.len(), 1);
    assert_eq!(checker.shapes().epochs[0].shapes.len(), 4);
}

#[test]
fn scheduling_asks_for_the_pass_in_order() {
    let heap = small_heap();
    let plan: &'static ToyHeap = Box::leak(Box::new(ToyHeap::new()));
    let mut checker = SanityChecker::new();
    checker.add_root_edges(vec![0x8000, 0x8008]);
    checker.add_root_edges(vec![]);
    let actions = ScheduleSanityGC::new(plan).do_work(&mut checker, &heap, true, true).unwrap();
    assert_eq!(
        actions,
        vec![
            SanityAction::ResetScheduler,
            SanityAction::ResetEdgeLogger,
            SanityAction::BeginSanity,
            SanityAction::TraceRoots(SanityGCProcessEdges::new(
                vec![0x8000, 0x8008],
                true,
                WorkBucketStage::Closure
            )),
            SanityAction::TraceRoots(SanityGCProcessEdges::new(
                vec![],
                true,
                WorkBucketStage::Closure
            )),
            SanityAction::SchedulePrepare,
            SanityAction::ScheduleRelease,
        ]
    );
    assert_eq!(checker.capture().roots, vec![RootEdge { objref: 0x1000 }, RootEdge { objref: 0 }]);
    // the cache stays until the pass is released
    assert_eq!(checker.root_edges().len(), 2);
}

#[test]
fn a_pass_that_is_not_profiled_records_no_roots() {
    let heap = small_heap();
    let plan: &'static ToyHeap = Box::leak(Box::new(ToyHeap::new()));
    let mut checker = SanityChecker::new();
    checker.add_root_edges(vec![0x8000, 0x8010]);
    let actions = ScheduleSanityGC::new(plan).do_work(&mut checker, &heap, false, false).unwrap();
    assert_eq!(
        actions,
        vec![
            SanityAction::ResetScheduler,
            SanityAction::BeginSanity,
            SanityAction::TraceRoots(SanityGCProcessEdges::new(
                vec![0x8000, 0x8010],
                true,
                WorkBucketStage::Closure
            )),
            SanityAction::SchedulePrepare,
            SanityAction::ScheduleRelease,
        ]
    );
    assert!(checker.capture().roots.is_empty());
    assert_eq!(checker.root_edges().len(), 1);
}

#[test]
fn scheduling_from_root_nodes() {
    let heap = small_heap();
    let plan: &'static ToyHeap = Box::leak(Box::new(ToyHeap::new()));
    let mut checker = SanityChecker::new();
    checker.add_root_nodes(vec![0x1000, 0x1040]);
    let actions = ScheduleSanityGC::new(plan).do_work(&mut checker, &heap, false, true).unwrap();
    assert_eq!(
        actions,
        vec![
            SanityAction::ResetScheduler,
            SanityAction::BeginSanity,
            SanityAction::TraceRootNodes(vec![0x1000, 0x1040]),
            SanityAction::SchedulePrepare,
            SanityAction::ScheduleRelease,
        ]
    );
    assert!(checker.capture().roots.is_empty());
    assert_eq!(checker.root_nodes(), &vec![vec![0x1000, 0x1040]]);
}

#[test]
fn root_nodes_beside_root_edges_are_a_fault() {
    let heap = small_heap();
    let plan: &'static ToyHeap = Box::leak(Box::new(ToyHeap::new()));
    let mut checker = SanityChecker::new();
    checker.add_root_edges(vec![0x8000]);
    checker.add_root_nodes(vec![0x1000]);
    assert_eq!(
        ScheduleSanityGC::new(plan).do_work(&mut checker, &heap, false, true),
        Err(SanityError::AmbiguousRoots)
    );
    assert!(checker.capture().roots.is_empty());
}

#[test]
fn preparing_clears_the_marks_and_opens_an_epoch() {
    let plan: &'static ToyHeap = Box::leak(Box::new(ToyHeap::new()));
    let mut checker = SanityChecker::new();
    checker.mark(0x1000);
    let actions = SanityPrepare::new(plan).do_work(&mut checker, true, 2, 3);
    assert_eq!(
        actions,
        vec![
            SanityAction::PrepareMutator(0),
            SanityAction::PrepareMutator(1),
            SanityAction::PrepareCollector(0),
            SanityAction::PrepareCollector(1),
            SanityAction::PrepareCollector(2),
        ]
    );
    assert_eq!(checker.marked_count(), 0);
    assert_eq!(checker.shapes().epochs.len(), 1);
    SanityPrepare::new(plan).do_work(&mut checker, false, 0, 0);
    assert_eq!(checker.shapes().epochs.len(), 1);
    SanityPrepare::new(plan).do_work(&mut checker, true, 0, 0);
    assert_eq!(checker.shapes().epochs.len(), 2);
}

#[test]
fn a_plan_that_prepares_no_mutators() {
    let mut heap = ToyHeap::new();
    heap.prepare_mutators = false;
    let plan: &'static ToyHeap = Box::leak(Box::new(heap));
    let mut checker = SanityChecker::new();
    let actions = SanityPrepare::new(plan).do_work(&mut checker, false, 2, 1);
    assert_eq!(actions, vec![SanityAction::PrepareCollector(0)]);
    assert_eq!(prepare_notices(false, 5, 0), vec![]);
    assert_eq!(prepare_notices(true, 1, 0), vec![SanityAction::PrepareMutator(0)]);
}

#[test]
fn releasing_a_profiled_pass_stores_the_capture() {
    let mut heap = small_heap();
    heap.spaces = vec![
        CommonSpace { name: "old".to_string(), start: 0x1000, extent: 0x1000, contiguous: true },
        CommonSpace { name: "los".to_string(), start: 0x4000, extent: 0x800, contiguous: true },
    ];
    let plan: &'static ToyHeap = Box::leak(Box::new(heap));
    let mut checker = SanityChecker::new();
    checker.add_root_edges(vec![0x8000]);
    checker.begin_pass(true);
    checker.record_root(0x1000);
    let mut work = SanityGCProcessEdges::new(vec![0x8000], true, WorkBucketStage::Closure);
    work.process_edges(&mut checker, plan, plan, true).unwrap();
    let mut expected = HeapDump::new();
    expected.objects = checker.capture().objects.clone();
    expected.roots = vec![RootEdge { objref: 0x1000 }];
    expected.spaces = vec![
        Space { name: "old".to_string(), start: 0x1000, end: 0x2000 },
        Space { name: "los".to_string(), start: 0x4000, end: 0x4800 },
    ];

    let actions = SanityRelease::new(plan).do_work(&mut checker, true, 20, 1, 2).unwrap();
    assert_eq!(actions.len(), 5);
    match &actions[0] {
        SanityAction::Persist { file_name, bytes } => {
            assert_eq!(file_name, "heapdump.20.binpb.zst");
            assert_eq!(HeapDump::load_from_bytes(bytes), Ok(expected));
        }
        other => panic!("{:?}", other),
    }
    assert_eq!(
        actions[1..],
        [
            SanityAction::ReleaseMutator(0),
            SanityAction::ReleaseCollector(0),
            SanityAction::ReleaseCollector(1),
            SanityAction::EndSanity,
        ]
    );
    assert_eq!(checker.capture(), &HeapDump::new());
    assert!(checker.root_edges().is_empty());
    assert!(checker.is_marked(0x1000));
}

#[test]
fn releasing_an_unprofiled_pass_stores_nothing() {
    let mut heap = ToyHeap::new();
    heap.spaces =
        vec![CommonSpace { name: "x".to_string(), start: 0, extent: 8, contiguous: false }];
    let plan: &'static ToyHeap = Box::leak(Box::new(heap));
    let mut checker = SanityChecker::new();
    checker.add_root_edges(vec![0x8000]);
    checker.add_root_nodes(vec![0x1000]);
    checker.record_root(0x1000);
    let actions = SanityRelease::new(plan).do_work(&mut checker, false, 3, 2, 0).unwrap();
    assert_eq!(
        actions,
        vec![
            SanityAction::ReleaseMutator(0),
            SanityAction::ReleaseMutator(1),
            SanityAction::EndSanity
        ]
    );
    assert_eq!(actions, release_notices(2, 0));
    assert!(checker.root_edges().is_empty());
    assert!(checker.root_nodes().is_empty());
    assert_eq!(checker.capture(), &HeapDump::new());
}

#[test]
fn a_space_that_is_not_contiguous_is_a_fault_and_records_nothing() {
    let mut heap = ToyHeap::new();
    heap.spaces = vec![
        CommonSpace { name: "old".to_string(), start: 0x1000, extent: 0x1000, contiguous: true },
        CommonSpace { name: "chunked".to_string(), start: 0x4000, extent: 0x800, contiguous: false },
    ];
    let plan: &'static ToyHeap = Box::leak(Box::new(heap));
    let mut checker = SanityChecker::new();
    checker.add_root_edges(vec![0x8000]);
    checker.record_root(0x1000);
    assert_eq!(
        SanityRelease::new(plan).do_work(&mut checker, true, 1, 1, 1),
        Err(SanityError::NonContiguousSpace)
    );
    assert!(checker.capture().spaces.is_empty());
    assert!(checker.capture().objects.is_empty());
    assert_eq!(checker.capture().roots.len(), 1);
    assert_eq!(checker.root_edges().len(), 1);

    let chunked = &plan.spaces[1];
    assert_eq!(checker.record_space(chunked), Err(SanityError::NonContiguousSpace));
    assert!(checker.capture().spaces.is_empty());
    assert_eq!(checker.record_space(&plan.spaces[0]), Ok(()));
    assert_eq!(
        checker.capture().spaces,
        vec![Space { name: "old".to_string(), start: 0x1000, end: 0x2000 }]
    );
}

#[test]
fn a_space_beyond_the_address_range_is_a_fault() {
    let mut checker = SanityChecker::new();
    let space = CommonSpace {
        name: "far".to_string(),
        start: u64::MAX - 7,
        extent: 8,
        contiguous: true,
    };
    assert_eq!(checker.record_space(&space), Err(SanityError::SpaceOutOfRange));
    assert_eq!(
        checker.end_pass(true, 0, &vec![space.clone()]),
        Err(SanityError::SpaceOutOfRange)
    );
    let fits = CommonSpace { extent: 7, ..space.clone() };
    assert_eq!(checker.record_space(&fits), Ok(()));
    assert_eq!(checker.capture().spaces[0].end, u64::MAX);
    // a space that is not contiguous is the fault before all others
    let chunked = CommonSpace { name: "c".to_string(), start: 0, extent: 8, contiguous: false };
    assert_eq!(
        checker.end_pass(true, 0, &vec![space.clone(), chunked.clone()]),
        Err(SanityError::NonContiguousSpace)
    );
    assert_eq!(
        checker.end_pass(true, 0, &vec![fits, chunked, space]),
        Err(SanityError::NonContiguousSpace)
    );
    assert_eq!(checker.capture().spaces.len(), 1);
}

#[test]
fn the_checks_are_joined_and_the_kind_is_chosen() {
    for structural in [false, true] {
        for by_plan in [false, true] {
            for by_runtime in [false, true] {
                assert_eq!(
                    passes_checks(structural, by_plan, by_runtime),
                    structural && by_plan && by_runtime
                );
            }
        }
    }
    assert_eq!(kind_of(true, true), Kind::ValArray);
    assert_eq!(kind_of(true, false), Kind::ValArray);
    assert_eq!(kind_of(false, true), Kind::ObjArray);
    assert_eq!(kind_of(false, false), Kind::Scalar);
}

#[test]
fn the_capture_is_named_after_the_pass() {
    assert_eq!(capture_file_name(0), "heapdump.0.binpb.zst");
    assert_eq!(capture_file_name(20), "heapdump.20.binpb.zst");
    assert_eq!(capture_file_name(1234567), "heapdump.1234567.binpb.zst");
}

#[test]
fn the_ledger_starts_empty() {
    let checker = SanityChecker::default();
    assert_eq!(checker.marked_count(), 0);
    assert!(checker.root_edges().is_empty());
    assert!(checker.root_nodes().is_empty());
    assert!(checker.shapes().epochs.is_empty());
    assert_eq!(checker.capture(), &HeapDump::new());
    let mut checker = checker;
    checker.add_root_edges(vec![1, 2]);
    checker.add_root_nodes(vec![3]);
    checker.clear_roots_cache();
    assert!(checker.root_edges().is_empty());
    assert!(checker.root_nodes().is_empty());
}

#[test]
fn the_cached_roots_are_handed_out_once() {
    let mut checker = SanityChecker::new();
    checker.add_root_edges(vec![1, 2]);
    checker.add_root_edges(vec![]);
    checker.add_root_nodes(vec![3]);
    let (edges, nodes) = checker.consume_and_clear_roots();
    assert_eq!(edges, vec![vec![1, 2], vec![]]);
    assert_eq!(nodes, vec![vec![3]]);
    assert!(checker.root_edges().is_empty());
    assert!(checker.root_nodes().is_empty());
    let (edges, nodes) = checker.consume_and_clear_roots();
    assert!(edges.is_empty() && nodes.is_empty());
}
