//! The unit of closure work: it takes a batch of edges, marks each object
//! they lead to once, and hands on the objects it marked for scanning.

use crate::heapdump::{HeapObject, HeapObjectView, NormalEdge};
use crate::host::{Plan, VMBinding};
use crate::sanity_checker::{LedgerView, SanityChecker, SanityError};
use crate::shapes::{offset_between, signed_offset, Kind, Shape, ShapeView};
use vstd::prelude::*;

verus! {

/// A stage of the host's scheduler. Stages run one after another, each only
/// when the one before has drained.
#[derive(Clone, Copy, Debug, PartialEq, Eq)]
pub enum WorkBucketStage {
    Prepare,
    Closure,
    Release,
}

/// The shape that a profiled pass records for an object of kind `kind`
/// with the reference fields `edges`. Only a scalar object lists the
/// offsets of its fields.
pub open spec fn shape_for(object: u64, kind: Kind, edges: Seq<NormalEdge>) -> ShapeView {
    ShapeView {
        kind,
        object,
        offsets: if kind == Kind::Scalar {
            Seq::new(edges.len(), |i: int| offset_between(edges[i].slot, object))
        } else {
            Seq::empty()
        },
    }
}

/// The record that a profiled pass captures for an object: a value array
/// has no edges, an object array has its length, a scalar object has its
/// mirror part where it carries one.
pub open spec fn record_for(
    object: u64,
    kind: Kind,
    edges: Seq<NormalEdge>,
    mirror: Option<(u64, u64)>,
    klass: u64,
    size: u64,
) -> HeapObjectView {
    HeapObjectView {
        start: object,
        klass,
        size,
        objarray_length: if kind == Kind::ObjArray {
            Some(edges.len() as u64)
        } else {
            None
        },
        instance_mirror_start: match mirror {
            Some(part) if kind == Kind::Scalar => Some(part.0),
            _ => None,
        },
        instance_mirror_count: match mirror {
            Some(part) if kind == Kind::Scalar => Some(part.1),
            _ => None,
        },
        edges: if kind == Kind::ValArray {
            Seq::empty()
        } else {
            edges
        },
    }
}

/// Builds the shape and the record of an object from what the runtime
/// reported of it.
pub fn classify(
    object: u64,
    kind: Kind,
    edges: Vec<NormalEdge>,
    mirror: Option<(u64, u64)>,
    klass: u64,
    size: u64,
) -> (described: (Shape, HeapObject))
    ensures
        described.0@ == shape_for(object, kind, edges@),
        described.1@ == record_for(object, kind, edges@, mirror, klass, size),
{
    let mut offsets: Vec<i64> = Vec::new();
    let mut objarray_length: Option<u64> = None;
    let mut instance_mirror_start: Option<u64> = None;
    let mut instance_mirror_count: Option<u64> = None;
    let mut kept: Vec<NormalEdge> = edges;
    match kind {
        Kind::ValArray => {
            kept = Vec::new();
        },
        Kind::ObjArray => {
            objarray_length = Some(kept.len() as u64);
        },
        Kind::Scalar => {
            match mirror {
                Some((mirror_start, mirror_count)) => {
                    instance_mirror_start = Some(mirror_start);
                    instance_mirror_count = Some(mirror_count);
                },
                None => {},
            }
            let mut i: usize = 0;
            while i < kept.len()
                invariant
                    i <= kept.len(),
                    offsets@.len() == i,
                    forall|j: int|
                        0 <= j < i ==> offsets@[j] == offset_between(
                            (#[trigger] kept@[j]).slot,
                            object,
                        ),
                decreases kept.len() - i,
            {
                offsets.push(signed_offset(kept[i].slot, object));
                i += 1;
            }
        },
    }
    let shape = Shape { kind, object, offsets };
    let record = HeapObject {
        start: object,
        klass,
        size,
        objarray_length,
        instance_mirror_start,
        instance_mirror_count,
        edges: kept,
    };
    assert(shape@.offsets =~= shape_for(object, kind, edges@).offsets);
    assert(record@.edges =~= record_for(object, kind, edges@, mirror, klass, size).edges);
    (shape, record)
}

/// Whether an object passes the sanity checks: it must pass the
/// structural check, the plan's and the runtime's.
pub fn passes_checks(structural: bool, by_plan: bool, by_runtime: bool) -> (sane: bool)
    ensures
        sane == (structural && by_plan && by_runtime),
{
    structural && by_plan && by_runtime
}

/// The kind of an object: an array without references before an array of
/// references, an ordinary object otherwise.
pub open spec fn kind_for(is_val_array: bool, is_obj_array: bool) -> Kind {
    if is_val_array {
        Kind::ValArray
    } else if is_obj_array {
        Kind::ObjArray
    } else {
        Kind::Scalar
    }
}

/// The kind of an object, from what the runtime said of it.
pub fn kind_of(is_val_array: bool, is_obj_array: bool) -> (kind: Kind)
    ensures
        kind == (if is_val_array {
            Kind::ValArray
        } else if is_obj_array {
            Kind::ObjArray
        } else {
            Kind::Scalar
        }),
{
    if is_val_array {
        Kind::ValArray
    } else if is_obj_array {
        Kind::ObjArray
    } else {
        Kind::Scalar
    }
}

/// Whether `sane` is what the three sanity checks came to for `object`:
/// the structural check is asked first, the plan's only where that
/// passed, the runtime's only where both passed, and the object is sane
/// where all three passed.
pub open spec fn checks_came_to<P: Plan, VM: VMBinding>(
    plan: &P,
    vm: &VM,
    object: u64,
    sane: bool,
) -> bool {
    exists|structural: bool| #[trigger]
        plan.reference_sane_is(object, structural) && if !structural {
            !sane
        } else {
            exists|by_plan: bool| #[trigger]
                plan.accepted_is(object, by_plan) && if !by_plan {
                    !sane
                } else {
                    exists|by_runtime: bool| #[trigger]
                        vm.object_sane_is(object, by_runtime) && sane == by_runtime
                }
        }
}

/// Whether `outcome` is what vetting the object `object`, which is not
/// null, came to under the host's answers: an object met for the first
/// time is put to the sanity checks, and the valid-object bit is asked for
/// unless the checks failed.
pub open spec fn vetted<P: Plan, VM: VMBinding>(
    plan: &P,
    vm: &VM,
    s: LedgerView,
    object: u64,
    in_harness: bool,
    outcome: Result<bool, SanityError>,
) -> bool {
    if newly_marked(s, object) {
        exists|sane: bool| #[trigger]
            checks_came_to(plan, vm, object, sane) && if !sane {
                outcome == admission(s, object, false, None, in_harness)
            } else {
                exists|bit: Option<bool>| #[trigger]
                    plan.valid_bit_is(object, bit) && outcome == admission(
                        s,
                        object,
                        true,
                        bit,
                        in_harness,
                    )
            }
    } else {
        exists|bit: Option<bool>| #[trigger]
            plan.valid_bit_is(object, bit) && outcome == admission(
                s,
                object,
                true,
                bit,
                in_harness,
            )
    }
}

/// Whether `edges` are the slots `slots` with what the runtime loaded from
/// each.
pub open spec fn edges_loaded<VM: VMBinding>(
    vm: &VM,
    slots: Seq<u64>,
    edges: Seq<NormalEdge>,
) -> bool {
    &&& edges.len() == slots.len()
    &&& forall|j: int|
        0 <= j < edges.len() ==> (#[trigger] edges[j]).slot == slots[j] && vm.loads(
            slots[j],
            edges[j].objref,
        )
}

/// Whether `kind` is the kind that the runtime's answers give `object`:
/// it is asked whether the object is an array of references only where
/// it is no array without references.
pub open spec fn kind_found<VM: VMBinding>(vm: &VM, object: u64, kind: Kind) -> bool {
    exists|is_val: bool| #[trigger]
        vm.val_array_is(object, is_val) && if is_val {
            kind == Kind::ValArray
        } else {
            exists|is_obj: bool| #[trigger]
                vm.obj_array_is(object, is_obj) && kind == kind_for(false, is_obj)
        }
}

/// Whether the runtime described `object` so: by its kind; by its
/// reference fields with what they hold, unless it is an array without
/// references; by its mirror part, where it is an ordinary object; by
/// its class and its size.
pub open spec fn described_by<VM: VMBinding>(
    vm: &VM,
    object: u64,
    kind: Kind,
    edges: Seq<NormalEdge>,
    mirror: Option<(u64, u64)>,
    klass: u64,
    size: u64,
) -> bool {
    &&& kind_found(vm, object, kind)
    &&& if kind == Kind::ValArray {
        edges.len() == 0
    } else {
        exists|slots: Seq<u64>| #[trigger] vm.scans(object, slots) && edges_loaded(vm, slots, edges)
    }
    &&& if kind == Kind::Scalar {
        vm.mirror_is(object, mirror)
    } else {
        mirror is None
    }
    &&& vm.klass_is(object, klass)
    &&& vm.size_is(object, size)
}

/// Whether tracing `object` marks it: it is not null and not yet marked.
pub open spec fn newly_marked(s: LedgerView, object: u64) -> bool {
    object != 0 && !s.visited.contains(object)
}

/// What tracing `object` comes to, given what the host found: `Ok(true)`
/// where the object is to be marked, `Ok(false)` where there is nothing to
/// do, or the fault. An object met for the first time must have passed the
/// sanity checks (`sane`), and a profiled pass needs an open epoch; where
/// the plan keeps valid-object bits, that of every traced object must be
/// set.
pub open spec fn admission(
    s: LedgerView,
    object: u64,
    sane: bool,
    valid_bit: Option<bool>,
    in_harness: bool,
) -> Result<bool, SanityError> {
    if object == 0 {
        Ok(false)
    } else if newly_marked(s, object) && !sane {
        Err(SanityError::InvalidReference { object })
    } else if newly_marked(s, object) && in_harness && s.epochs.len() == 0 {
        Err(SanityError::NoOpenEpoch)
    } else if valid_bit == Some(false) {
        Err(SanityError::ValidBitNotSet { object })
    } else {
        Ok(newly_marked(s, object))
    }
}

/// Whether the edge at `slot` was traced: the runtime loaded from it an
/// object that is null or marked in the ledger `s`.
pub open spec fn edge_traced<VM: VMBinding>(vm: &VM, s: LedgerView, slot: u64) -> bool {
    exists|object: u64| #[trigger] vm.loads(slot, object) && (object == 0 || s.visited.contains(object))
}

/// Whether the runtime loaded `object` from one of `edges`.
pub open spec fn loaded_from<VM: VMBinding>(vm: &VM, edges: Seq<u64>, object: u64) -> bool {
    exists|i: int| 0 <= i < edges.len() && vm.loads(#[trigger] edges[i], object)
}

/// Whether `fault` is the fault of tracing `object`.
pub open spec fn faults_at(fault: SanityError, object: u64) -> bool {
    ||| fault == (SanityError::InvalidReference { object })
    ||| fault == SanityError::NoOpenEpoch
    ||| fault == (SanityError::ValidBitNotSet { object })
}

/// Whether a batch over `edges` stopped at its edge `at`: every edge before
/// it was traced, and the object that the runtime loaded from it, which is
/// not null, gave the fault.
pub open spec fn stopped_at<VM: VMBinding>(
    vm: &VM,
    s: LedgerView,
    edges: Seq<u64>,
    at: int,
    fault: SanityError,
) -> bool {
    &&& 0 <= at < edges.len()
    &&& forall|j: int| 0 <= j < at ==> edge_traced(vm, s, #[trigger] edges[j])
    &&& exists|object: u64| #[trigger]
        vm.loads(edges[at], object) && object != 0 && faults_at(fault, object)
}

/// Whether a batch over `edges` stopped at one of its edges with the
/// fault `fault`.
pub open spec fn stopped<VM: VMBinding>(
    vm: &VM,
    s: LedgerView,
    edges: Seq<u64>,
    fault: SanityError,
) -> bool {
    exists|at: int| #[trigger] stopped_at(vm, s, edges, at, fault)
}

/// A batch of marked objects whose fields are to be scanned.
#[derive(Clone, Debug, PartialEq, Eq)]
pub struct ScanObjects {
    pub nodes: Vec<u64>,
    pub roots: bool,
    pub bucket: WorkBucketStage,
}

/// What a [`SanityGCProcessEdges`] holds, as a mathematical value.
pub struct ProcessEdgesView {
    /// The slots of the batch.
    pub edges: Seq<u64>,
    /// The objects marked so far and not yet handed on.
    pub nodes: Seq<u64>,
    /// Whether the slots are roots.
    pub roots: bool,
    /// The stage the work runs in.
    pub bucket: WorkBucketStage,
}

/// The closure work on one batch of edges.
#[derive(Clone, Debug, PartialEq, Eq)]
pub struct SanityGCProcessEdges {
    edges: Vec<u64>,
    nodes: Vec<u64>,
    roots: bool,
    bucket: WorkBucketStage,
}

impl View for SanityGCProcessEdges {
    type V = ProcessEdgesView;

    closed spec fn view(&self) -> ProcessEdgesView {
        ProcessEdgesView {
            edges: self.edges@,
            nodes: self.nodes@,
            roots: self.roots,
            bucket: self.bucket,
        }
    }
}

/// Loads the reference that each of `slots` holds.
fn load_edges<VM: VMBinding>(vm: &VM, slots: &Vec<u64>) -> (edges: Vec<NormalEdge>)
    ensures
        edges_loaded(vm, slots@, edges@),
{
    let mut edges: Vec<NormalEdge> = Vec::new();
    let mut i: usize = 0;
    while i < slots.len()
        invariant
            i <= slots.len(),
            edges@.len() == i,
            forall|j: int|
                0 <= j < i ==> (#[trigger] edges@[j]).slot == slots@[j] && vm.loads(
                    slots@[j],
                    edges@[j].objref,
                ),
        decreases slots.len() - i,
    {
        let slot = slots[i];
        edges.push(NormalEdge { slot, objref: vm.load_edge(slot) });
        i += 1;
    }
    edges
}

/// A ledger advances to itself by marking nothing.
pub proof fn lemma_advanced_by_nothing(s: LedgerView, in_harness: bool)
    ensures
        s.advanced_to(s, Seq::empty(), in_harness),
{
}

/// Two advances in a row are one advance by both runs of objects.
pub proof fn lemma_advanced_twice(
    a: LedgerView,
    b: LedgerView,
    c: LedgerView,
    first: Seq<u64>,
    second: Seq<u64>,
    in_harness: bool,
)
    requires
        a.advanced_to(b, first, in_harness),
        b.advanced_to(c, second, in_harness),
    ensures
        a.advanced_to(c, first + second, in_harness),
{
    let both = first + second;
    assert forall|i: int, j: int| 0 <= i < j < both.len() implies both[i] != both[j] by {
        if j >= first.len() {
            assert(both[j] == second[j - first.len()]);
            if i < first.len() {
                assert(both[i] == first[i]);
                assert(first.contains(first[i]));
                assert(b.visited.contains(first[i]));
            } else {
                assert(both[i] == second[i - first.len()]);
            }
        } else {
            assert(both[i] == first[i] && both[j] == first[j]);
        }
    }
    assert forall|i: int| 0 <= i < both.len() implies #[trigger] both[i] != 0
        && !a.visited.contains(both[i]) by {
        if i < first.len() {
            assert(both[i] == first[i]);
        } else {
            let o = second[i - first.len()];
            assert(both[i] == o);
            assert(!b.visited.contains(o));
            assert(b.visited.contains(o) <==> a.visited.contains(o) || first.contains(o));
        }
    }
    assert forall|o: u64| c.visited.contains(o) <==> a.visited.contains(o) || both.contains(
        o,
    ) by {
        if first.contains(o) {
            let i = choose|i: int| 0 <= i < first.len() && first[i] == o;
            assert(both[i] == o);
        }
        if second.contains(o) {
            let i = choose|i: int| 0 <= i < second.len() && second[i] == o;
            assert(both[first.len() + i] == o);
        }
        if both.contains(o) {
            let i = choose|i: int| 0 <= i < both.len() && both[i] == o;
            if i < first.len() {
                assert(first[i] == o);
            } else {
                assert(second[i - first.len()] == o);
            }
        }
    }
    if in_harness && both.len() > 0 {
        let records = a.capture.objects.len();
        let shapes = a.epochs.last().len();
        if first.len() == 0 {
            assert(both =~= second);
        } else if second.len() == 0 {
            assert(both =~= first);
        } else {
            let mid = b.capture.objects.len();
            assert(c.capture.objects.take(records as int) =~= c.capture.objects.take(
                mid as int,
            ).take(records as int));
            assert forall|i: int| 0 <= i < both.len() implies (#[trigger] c.capture.objects[records
                + i]).start == both[i] by {
                if i < first.len() {
                    assert(c.capture.objects.take(mid as int)[records + i]
                        == c.capture.objects[records + i]);
                } else {
                    assert(c.capture.objects[mid + (i - first.len())].start == second[i
                        - first.len()]);
                }
            }
            let mid_shapes = b.epochs.last().len();
            assert(c.epochs.drop_last() == a.epochs.drop_last());
            assert(c.epochs.last().take(shapes as int) =~= c.epochs.last().take(
                mid_shapes as int,
            ).take(shapes as int));
            assert forall|i: int| 0 <= i < both.len() implies (#[trigger] c.epochs.last()[shapes
                + i]).object == both[i] by {
                if i < first.len() {
                    assert(c.epochs.last().take(mid_shapes as int)[shapes + i]
                        == c.epochs.last()[shapes + i]);
                } else {
                    assert(c.epochs.last()[mid_shapes + (i - first.len())].object == second[i
                        - first.len()]);
                }
            }
        }
    }
}

impl SanityGCProcessEdges {
    /// The work on the batch `edges`, with nothing marked yet.
    pub fn new(edges: Vec<u64>, roots: bool, bucket: WorkBucketStage) -> (work: SanityGCProcessEdges)
        ensures
            work@ == (ProcessEdgesView { edges: edges@, nodes: Seq::empty(), roots, bucket }),
    {
        SanityGCProcessEdges { edges, nodes: Vec::new(), roots, bucket }
    }

    /// The slots of the batch.
    pub fn edges(&self) -> (edges: &Vec<u64>)
        ensures
            edges@ == self@.edges,
    {
        &self.edges
    }

    /// The objects marked so far and not yet handed on.
    pub fn nodes(&self) -> (nodes: &Vec<u64>)
        ensures
            nodes@ == self@.nodes,
    {
        &self.nodes
    }

    /// Whether the slots of the batch are roots.
    pub fn roots(&self) -> (roots: bool)
        ensures
            roots == self@.roots,
    {
        self.roots
    }

    /// The stage the work runs in.
    pub fn bucket(&self) -> (bucket: WorkBucketStage)
        ensures
            bucket == self@.bucket,
    {
        self.bucket
    }

    /// Decides what tracing `object` comes to, from what the host found of
    /// it, and marks and queues the object where it is met for the first
    /// time. `sane` says whether the object passed the sanity checks; it is
    /// read only for an object that is not marked yet.
    pub fn vet(
        &mut self,
        checker: &mut SanityChecker,
        object: u64,
        sane: bool,
        valid_bit: Option<bool>,
        in_harness: bool,
    ) -> (r: Result<bool, SanityError>)
        ensures
            r == admission(old(checker)@, object, sane, valid_bit, in_harness),
            r == Ok::<bool, SanityError>(true) ==> final(checker)@ == old(checker)@.mark(object)
                && final(self)@ == (ProcessEdgesView {
                nodes: old(self)@.nodes.push(object),
                ..old(self)@
            }),
            r != Ok::<bool, SanityError>(true) ==> final(checker)@ == old(checker)@ && final(self)@
                == old(self)@,
    {
        if object == 0 {
            return Ok(false);
        }
        let fresh = !checker.is_marked(object);
        if fresh {
            if !sane {
                return Err(SanityError::InvalidReference { object });
            }
            if in_harness && !checker.has_open_epoch() {
                return Err(SanityError::NoOpenEpoch);
            }
        }
        // Where valid-object bits are kept, every live object has its bit
        // set when the sanity pass starts.
        match valid_bit {
            Some(false) => {
                return Err(SanityError::ValidBitNotSet { object });
            },
            _ => {},
        }
        if fresh {
            // Object is not "marked"
            checker.mark(object);  // "Mark" it
            self.nodes.push(object);
        }
        Ok(fresh)
    }

    /// Traces one object. A null object is passed over. An object met for
    /// the first time in this pass is checked against the host, marked and
    /// queued for scanning, and in a profiled pass its shape and record, as
    /// [`classify`] builds them from the host's answers, are added to the
    /// ledger. A fault leaves the ledger and the queue as they were.
    pub fn trace_object<P: Plan, VM: VMBinding>(
        &mut self,
        checker: &mut SanityChecker,
        plan: &P,
        vm: &VM,
        in_harness: bool,
        object: u64,
    ) -> (r: Result<u64, SanityError>)
        ensures
            r is Ok ==> r == Ok::<u64, SanityError>(object),
            object == 0 ==> r is Ok,
            newly_marked(old(checker)@, object) && in_harness && old(checker)@.epochs.len() == 0
                ==> r is Err,
            r is Err ==> final(checker)@ == old(checker)@ && final(self)@ == old(self)@,
            r is Err ==> {
                ||| r->Err_0 == (SanityError::InvalidReference { object }) && newly_marked(
                    old(checker)@,
                    object,
                )
                ||| r->Err_0 == SanityError::NoOpenEpoch && newly_marked(old(checker)@, object)
                    && in_harness && old(checker)@.epochs.len() == 0
                ||| r->Err_0 == (SanityError::ValidBitNotSet { object }) && object != 0
            },
            r is Ok && !newly_marked(old(checker)@, object) ==> final(checker)@ == old(checker)@
                && final(self)@ == old(self)@,
            r is Ok && newly_marked(old(checker)@, object) ==> old(checker)@.advanced_to(
                final(checker)@,
                seq![object],
                in_harness,
            ) && final(self)@ == (ProcessEdgesView {
                nodes: old(self)@.nodes.push(object),
                ..old(self)@
            }),
            r is Ok && newly_marked(old(checker)@, object) && !in_harness ==> final(checker)@
                == old(checker)@.mark(object),
            r is Ok && newly_marked(old(checker)@, object) && in_harness ==> exists|
                kind: Kind,
                edges: Seq<NormalEdge>,
                mirror: Option<(u64, u64)>,
                klass: u64,
                size: u64,
            | #[trigger]
                described_by(vm, object, kind, edges, mirror, klass, size) && final(checker)@
                    == old(checker)@.mark(object).with_shape(
                    shape_for(object, kind, edges),
                ).with_record(record_for(object, kind, edges, mirror, klass, size)),
            object != 0 ==> vetted(
                plan,
                vm,
                old(checker)@,
                object,
                in_harness,
                match r {
                    Ok(_) => Ok(newly_marked(old(checker)@, object)),
                    Err(e) => Err(e),
                },
            ),
    {
        if object == 0 {
            return Ok(object);
        }
        let fresh = !checker.is_marked(object);
        let sane = if fresh {
            let structural = plan.is_sane(object);
            let by_plan = structural && plan.sanity_check_object(object);
            let by_runtime = by_plan && vm.is_object_sane(object);
            let sane = passes_checks(structural, by_plan, by_runtime);
            assert(checks_came_to(plan, vm, object, sane));
            sane
        } else {
            true
        };
        let valid_bit = if sane {
            plan.vo_bit(object)
        } else {
            None
        };
        let vetting = self.vet(checker, object, sane, valid_bit, in_harness);
        assert(vetted(plan, vm, old(checker)@, object, in_harness, vetting));
        match vetting {
            Err(e) => Err(e),
            Ok(false) => Ok(object),
            Ok(true) => {
                let ghost marked = checker@;
                if in_harness {
                    let is_val = vm.is_val_array(object);
                    let is_obj = !is_val && vm.is_obj_array(object);
                    let kind = kind_of(is_val, is_obj);
                    assert(kind_found(vm, object, kind));
                    let mut edges: Vec<NormalEdge> = Vec::new();
                    let mut mirror: Option<(u64, u64)> = None;
                    match kind {
                        Kind::ValArray => {},
                        Kind::ObjArray => {
                            let slots = vm.scan_object(object);
                            edges = load_edges(vm, &slots);
                        },
                        Kind::Scalar => {
                            mirror = vm.instance_mirror_info(object);
                            let slots = vm.scan_object(object);
                            edges = load_edges(vm, &slots);
                        },
                    }
                    let klass = vm.get_klass(object);
                    let size = vm.get_current_size(object);
                    let ghost listed = edges@;
                    assert(described_by(vm, object, kind, listed, mirror, klass, size));
                    let (shape, record) = classify(object, kind, edges, mirror, klass, size);
                    let recorded = checker.record_capture(shape, record);
                    assert(recorded);
                    assert(checker@ == old(checker)@.mark(object).with_shape(
                        shape_for(object, kind, listed),
                    ).with_record(record_for(object, kind, listed, mirror, klass, size)));
                    proof {
                        let before = old(checker)@;
                        let after = checker@;
                        let records = before.capture.objects.len();
                        let shapes = before.epochs.last().len();
                        assert(after.capture.objects.take(records as int)
                            =~= before.capture.objects);
                        assert(after.capture.objects[records as int] == record@);
                        assert(after.epochs.drop_last() =~= before.epochs.drop_last());
                        assert(after.epochs.last().take(shapes as int) =~= before.epochs.last());
                        assert(after.epochs.last()[shapes as int] == shape@);
                    }
                }
                proof {
                    let before = old(checker)@;
                    let after = checker@;
                    assert(seq![object][0] == object);
                    assert forall|o: u64|
                        after.visited.contains(o) <==> before.visited.contains(o)
                            || seq![object].contains(o) by {
                        if o == object {
                            assert(seq![object][0] == o);
                        }
                    }
                }
                Ok(object)
            },
        }
    }

    /// Traces the object behind each edge of the batch, in order, up to the
    /// first fault. The objects marked on the way are queued in that order;
    /// a fault leaves what was marked before it. Where the batch ends
    /// without a fault, what the runtime loaded from each edge is null or
    /// marked; every object it queued was loaded from an edge of the batch.
    pub fn process_edges<P: Plan, VM: VMBinding>(
        &mut self,
        checker: &mut SanityChecker,
        plan: &P,
        vm: &VM,
        in_harness: bool,
    ) -> (r: Result<(), SanityError>)
        ensures
            final(self)@.edges == old(self)@.edges,
            final(self)@.roots == old(self)@.roots,
            final(self)@.bucket == old(self)@.bucket,
            old(self)@.nodes.is_prefix_of(final(self)@.nodes),
            old(checker)@.advanced_to(
                final(checker)@,
                final(self)@.nodes.skip(old(self)@.nodes.len() as int),
                in_harness,
            ),
            old(self)@.edges.len() == 0 ==> r is Ok,
            r is Ok ==> forall|i: int|
                0 <= i < old(self)@.edges.len() ==> edge_traced(
                    vm,
                    final(checker)@,
                    #[trigger] old(self)@.edges[i],
                ),
            r is Err ==> stopped(vm, final(checker)@, old(self)@.edges, r->Err_0),
            forall|k: int|
                old(self)@.nodes.len() <= k < final(self)@.nodes.len() ==> loaded_from(
                    vm,
                    old(self)@.edges,
                    #[trigger] final(self)@.nodes[k],
                ),
    {
        let ghost start = checker@;
        let ghost queued = self@.nodes;
        let ghost mut marked: Seq<u64> = Seq::empty();
        proof {
            lemma_advanced_by_nothing(start, in_harness);
            assert(queued + marked =~= queued);
        }
        let ghost edges = self@.edges;
        let mut i: usize = 0;
        while i < self.edges.len()
            invariant
                i <= self.edges.len(),
                edges == old(self)@.edges,
                self@.edges == old(self)@.edges,
                self@.roots == old(self)@.roots,
                self@.bucket == old(self)@.bucket,
                queued == old(self)@.nodes,
                start == old(checker)@,
                self@.nodes == queued + marked,
                start.advanced_to(checker@, marked, in_harness),
                forall|j: int| 0 <= j < i ==> edge_traced(vm, checker@, #[trigger] edges[j]),
                forall|k: int| 0 <= k < marked.len() ==> loaded_from(vm, edges, #[trigger] marked[k]),
            decreases self.edges.len() - i,
        {
            let ghost before = checker@;
            let ghost slot = edges[i as int];
            let object = vm.load_edge(self.edges[i]);
            let traced = self.trace_object(checker, plan, vm, in_harness, object);
            proof {
                assert forall|o: u64| before.visited.contains(o) implies checker@.visited.contains(
                    o,
                ) by {}
                assert forall|j: int| 0 <= j < i implies edge_traced(
                    vm,
                    checker@,
                    #[trigger] edges[j],
                ) by {
                    assert(edge_traced(vm, before, edges[j]));
                    let found = choose|found: u64| #[trigger]
                        vm.loads(edges[j], found) && (found == 0 || before.visited.contains(found));
                    assert(vm.loads(edges[j], found) && (found == 0 || checker@.visited.contains(
                        found,
                    )));
                }
                if traced is Ok {
                    if newly_marked(before, object) {
                        lemma_advanced_twice(
                            start,
                            before,
                            checker@,
                            marked,
                            seq![object],
                            in_harness,
                        );
                        assert(self@.nodes =~= queued + (marked + seq![object]));
                        assert(seq![object][0] == object);
                        assert(checker@.visited.contains(object));
                        let grown = marked + seq![object];
                        assert forall|k: int| 0 <= k < grown.len() implies loaded_from(
                            vm,
                            edges,
                            #[trigger] grown[k],
                        ) by {
                            if k < marked.len() {
                                assert(grown[k] == marked[k]);
                            } else {
                                assert(vm.loads(edges[i as int], object));
                            }
                        }
                        marked = grown;
                    }
                    assert(vm.loads(slot, object) && (object == 0 || checker@.visited.contains(
                        object,
                    )));
                    assert(edge_traced(vm, checker@, edges[i as int]));
                } else {
                    assert(vm.loads(edges[i as int], object) && object != 0 && faults_at(
                        traced->Err_0,
                        object,
                    ));
                    assert(stopped_at(vm, checker@, edges, i as int, traced->Err_0));
                }
                assert((queued + marked).skip(queued.len() as int) =~= marked);
                assert forall|k: int| queued.len() <= k < (queued + marked).len() implies loaded_from(
                    vm,
                    edges,
                    #[trigger] (queued + marked)[k],
                ) by {
                    assert((queued + marked)[k] == marked[k - queued.len()]);
                }
            }
            match traced {
                Ok(_) => {},
                Err(e) => {
                    assert(stopped_at(vm, checker@, old(self)@.edges, i as int, e));
                    assert(stopped(vm, checker@, old(self)@.edges, e));
                    return Err(e);
                },
            }
            i += 1;
        }
        assert((queued + marked).skip(queued.len() as int) =~= marked);
        assert forall|k: int| queued.len() <= k < (queued + marked).len() implies loaded_from(
            vm,
            edges,
            #[trigger] (queued + marked)[k],
        ) by {
            assert((queued + marked)[k] == marked[k - queued.len()]);
        }
        Ok(())
    }

    /// The scan work for `nodes`: it runs in the closure stage and its
    /// objects are no roots.
    pub fn create_scan_work(&self, nodes: Vec<u64>) -> (work: ScanObjects)
        ensures
            work.nodes@ == nodes@,
            !work.roots,
            work.bucket == WorkBucketStage::Closure,
    {
        ScanObjects { nodes, roots: false, bucket: WorkBucketStage::Closure }
    }

    /// Hands on the objects marked so far as scan work, if there are any,
    /// and starts over with none.
    pub fn flush(&mut self) -> (work: Option<ScanObjects>)
        ensures
            final(self)@ == (ProcessEdgesView { nodes: Seq::empty(), ..old(self)@ }),
            old(self)@.nodes.len() == 0 ==> work is None,
            old(self)@.nodes.len() > 0 ==> work is Some && work->0.nodes@ == old(self)@.nodes
                && !work->0.roots && work->0.bucket == WorkBucketStage::Closure,
    {
        if self.nodes.len() == 0 {
            assert(self.nodes@ =~= Seq::empty());
            None
        } else {
            let mut nodes: Vec<u64> = Vec::new();
            std::mem::swap(&mut nodes, &mut self.nodes);
            Some(self.create_scan_work(nodes))
        }
    }
}

} // verus!
