//! The ledger of a sanity pass: which objects the pass has marked, the
//! roots cached for it, the shapes recorded while profiling, and the capture
//! being built.

use crate::codec::{zstd_content, zstd_frame};
use crate::format::dump_bytes;
use crate::heapdump::{
    HeapDump, HeapDumpView, HeapObject, HeapObjectView, RootEdge, Space, SpaceView,
};
use crate::host::{common_space_views, CommonSpace, CommonSpaceView};
use crate::shapes::{Shape, ShapeView, ShapesIteration};
use std::collections::HashSet;
use vstd::prelude::*;
use vstd::string::StringExecFns;

verus! {

/// A fault that ends a sanity pass. None of them can be recovered from: the
/// caller is expected to stop, naming the object where there is one.
#[derive(Clone, Copy, Debug, PartialEq, Eq)]
pub enum SanityError {
    /// The reference to `object` failed one of the sanity checks.
    InvalidReference { object: u64 },
    /// The plan keeps valid-object bits and that of `object` is not set.
    ValidBitNotSet { object: u64 },
    /// A shape was to be recorded and no epoch is open.
    NoOpenEpoch,
    /// Root nodes are cached beside root edges.
    AmbiguousRoots,
    /// A space of the plan is not contiguous.
    NonContiguousSpace,
    /// A space of the plan ends beyond the address range.
    SpaceOutOfRange,
    /// The capture could not be brought into its stored form.
    CaptureNotStored,
}

/// The ledger as a mathematical value.
pub struct LedgerView {
    /// The objects marked in the current pass.
    pub visited: Set<u64>,
    /// The cached groups of root slots.
    pub root_edges: Seq<Seq<u64>>,
    /// The cached groups of root objects.
    pub root_nodes: Seq<Seq<u64>>,
    /// The epochs of shapes, oldest first.
    pub epochs: Seq<Seq<ShapeView>>,
    /// The capture of the current pass.
    pub capture: HeapDumpView,
}

impl LedgerView {
    /// The ledger before anything was cached, marked or captured.
    pub open spec fn initial() -> LedgerView {
        LedgerView {
            visited: Set::empty(),
            root_edges: Seq::empty(),
            root_nodes: Seq::empty(),
            epochs: Seq::empty(),
            capture: HeapDumpView::empty(),
        }
    }

    /// This ledger with `object` marked.
    pub open spec fn mark(self, object: u64) -> LedgerView {
        LedgerView { visited: self.visited.insert(object), ..self }
    }

    /// This ledger with `shape` added to its newest epoch.
    pub open spec fn with_shape(self, shape: ShapeView) -> LedgerView {
        LedgerView {
            epochs: self.epochs.update(self.epochs.len() - 1, self.epochs.last().push(shape)),
            ..self
        }
    }

    /// This ledger with `record` added to its capture.
    pub open spec fn with_record(self, record: HeapObjectView) -> LedgerView {
        LedgerView {
            capture: HeapDumpView { objects: self.capture.objects.push(record), ..self.capture },
            ..self
        }
    }

    /// This ledger with `roots` added to the roots of its capture.
    pub open spec fn with_roots(self, roots: Seq<RootEdge>) -> LedgerView {
        LedgerView {
            capture: HeapDumpView { roots: self.capture.roots + roots, ..self.capture },
            ..self
        }
    }
}

impl LedgerView {
    /// Whether `later` is this ledger after the objects `marked` were
    /// marked for the first time, in that order, and nothing else happened.
    /// In a profiled pass each of them got one record and one shape, in the
    /// same order.
    pub open spec fn advanced_to(self, later: LedgerView, marked: Seq<u64>, in_harness: bool) -> bool {
        let records = self.capture.objects.len();
        &&& marked.no_duplicates()
        &&& forall|i: int|
            #![trigger marked[i]]
            0 <= i < marked.len() ==> marked[i] != 0 && !self.visited.contains(marked[i])
        &&& forall|o: u64|
            #![trigger later.visited.contains(o)]
            #![trigger self.visited.contains(o)]
            later.visited.contains(o) <==> self.visited.contains(o) || marked.contains(o)
        &&& later.root_edges == self.root_edges
        &&& later.root_nodes == self.root_nodes
        &&& later.capture.roots == self.capture.roots
        &&& later.capture.spaces == self.capture.spaces
        &&& if in_harness && marked.len() > 0 {
            let shapes = self.epochs.last().len();
            &&& later.capture.objects.len() == records + marked.len()
            &&& later.capture.objects.take(records as int) == self.capture.objects
            &&& forall|i: int|
                0 <= i < marked.len() ==> (#[trigger] later.capture.objects[records + i]).start
                    == marked[i]
            &&& self.epochs.len() > 0
            &&& later.epochs.len() == self.epochs.len()
            &&& later.epochs.drop_last() == self.epochs.drop_last()
            &&& later.epochs.last().len() == shapes + marked.len()
            &&& later.epochs.last().take(shapes as int) == self.epochs.last()
            &&& forall|i: int|
                0 <= i < marked.len() ==> (#[trigger] later.epochs.last()[shapes + i]).object
                    == marked[i]
        } else {
            &&& later.capture.objects == self.capture.objects
            &&& later.epochs == self.epochs
        }
    }

    /// Whether the capture has at most one record for an object, and none
    /// for an object that is not marked.
    pub open spec fn consistent(self) -> bool {
        &&& forall|i: int|
            0 <= i < self.capture.objects.len() ==> self.visited.contains(
                (#[trigger] self.capture.objects[i]).start,
            )
        &&& forall|i: int, j: int|
            0 <= i < j < self.capture.objects.len() ==> (#[trigger] self.capture.objects[i]).start
                != (#[trigger] self.capture.objects[j]).start
    }

    /// Whether every marked object has a record in the capture.
    pub open spec fn complete(self) -> bool {
        forall|o: u64| self.visited.contains(o) ==> self.capture.has_record(o)
    }
}

/// What is wrong with a space of the plan, if anything: a capture takes
/// contiguous spaces only, and a space must end within the address range.
pub open spec fn space_fault(space: CommonSpaceView) -> Option<SanityError> {
    if !space.contiguous {
        Some(SanityError::NonContiguousSpace)
    } else if space.start + space.extent > u64::MAX {
        Some(SanityError::SpaceOutOfRange)
    } else {
        None
    }
}

/// What is wrong with the spaces of the plan, if anything: a space that
/// is not contiguous comes before a space that ends beyond the address
/// range, wherever in the list they stand.
pub open spec fn spaces_fault(spaces: Seq<CommonSpaceView>) -> Option<SanityError> {
    if exists|i: int| 0 <= i < spaces.len() && !(#[trigger] spaces[i]).contiguous {
        Some(SanityError::NonContiguousSpace)
    } else if exists|i: int|
        0 <= i < spaces.len() && (#[trigger] spaces[i]).start + spaces[i].extent > u64::MAX {
        Some(SanityError::SpaceOutOfRange)
    } else {
        None
    }
}

/// The space as the capture describes it: by its name, its start and its
/// end.
pub open spec fn described(space: CommonSpaceView) -> SpaceView {
    SpaceView { name: space.name, start: space.start, end: (space.start + space.extent) as u64 }
}

/// The spaces as the capture describes them, in order.
pub open spec fn all_described(spaces: Seq<CommonSpaceView>) -> Seq<SpaceView> {
    Seq::new(spaces.len(), |i: int| described(spaces[i]))
}

/// The capture with the descriptions of `spaces` after the spaces it
/// holds.
pub open spec fn with_spaces(capture: HeapDumpView, spaces: Seq<CommonSpaceView>) -> HeapDumpView {
    HeapDumpView { spaces: capture.spaces + all_described(spaces), ..capture }
}

/// The digit that stands for `d`.
pub open spec fn digit(d: nat) -> char {
    if d == 0 {
        '0'
    } else if d == 1 {
        '1'
    } else if d == 2 {
        '2'
    } else if d == 3 {
        '3'
    } else if d == 4 {
        '4'
    } else if d == 5 {
        '5'
    } else if d == 6 {
        '6'
    } else if d == 7 {
        '7'
    } else if d == 8 {
        '8'
    } else {
        '9'
    }
}

/// The decimal digits of `n`, without leading zeros.
pub open spec fn decimal(n: nat) -> Seq<char>
    decreases n,
{
    if n < 10 {
        seq![digit(n)]
    } else {
        decimal(n / 10).push(digit(n % 10))
    }
}

/// The name under which the capture of pass `pass` is stored.
pub open spec fn capture_name(pass: nat) -> Seq<char> {
    "heapdump."@ + decimal(pass) + ".binpb.zst"@
}

/// `format!` of one number: it comes out in decimal digits, without
/// leading zeros.
#[verifier::external_body]
fn decimal_digits(n: usize) -> (digits: String)
    ensures
        digits@ == decimal(n as nat),
{
    format!("{}", n)
}

/// The name under which the capture of pass `pass` is stored.
pub fn capture_file_name(pass: usize) -> (name: String)
    ensures
        name@ == capture_name(pass as nat),
{
    let mut name = "heapdump.".to_owned();
    let digits = decimal_digits(pass);
    name.append(digits.as_str());
    name.append(".binpb.zst");
    name
}

/// A capture brought into its stored form, with the name to store it
/// under.
#[derive(Clone, Debug, PartialEq, Eq)]
pub struct StoredCapture {
    pub file_name: String,
    pub bytes: Vec<u8>,
}

/// The views of a sequence of groups, in order.
pub open spec fn group_views(groups: Seq<Vec<u64>>) -> Seq<Seq<u64>> {
    Seq::new(groups.len(), |i: int| groups[i]@)
}

/// The shared state of the sanity pass. Exclusive access stands for the lock
/// that guards it.
pub struct SanityChecker {
    /// Visited objects
    refs: HashSet<u64>,
    /// Cached root edges for sanity root scanning
    root_edges: Vec<Vec<u64>>,
    /// Cached root nodes for sanity root scanning
    root_nodes: Vec<Vec<u64>>,
    iter: ShapesIteration,
    heapdump: HeapDump,
}

impl View for SanityChecker {
    type V = LedgerView;

    closed spec fn view(&self) -> LedgerView {
        LedgerView {
            visited: self.refs@,
            root_edges: group_views(self.root_edges@),
            root_nodes: group_views(self.root_nodes@),
            epochs: self.iter@,
            capture: self.heapdump@,
        }
    }
}

impl Default for SanityChecker {
    fn default() -> (checker: SanityChecker)
        ensures
            checker@ == LedgerView::initial(),
    {
        SanityChecker::new()
    }
}

impl SanityChecker {
    pub fn new() -> (checker: SanityChecker)
        ensures
            checker@ == LedgerView::initial(),
    {
        let checker = SanityChecker {
            refs: HashSet::new(),
            root_edges: Vec::new(),
            root_nodes: Vec::new(),
            iter: ShapesIteration::new(),
            heapdump: HeapDump::new(),
        };
        assert(checker@.root_edges =~= Seq::empty());
        assert(checker@.root_nodes =~= Seq::empty());
        checker
    }

    /// Cache a list of root edges to the sanity checker.
    pub fn add_root_edges(&mut self, roots: Vec<u64>)
        ensures
            final(self)@ == (LedgerView {
                root_edges: old(self)@.root_edges.push(roots@),
                ..old(self)@
            }),
    {
        self.root_edges.push(roots);
        assert(self@.root_edges =~= old(self)@.root_edges.push(roots@));
    }

    /// Cache a list of root objects to the sanity checker.
    pub fn add_root_nodes(&mut self, roots: Vec<u64>)
        ensures
            final(self)@ == (LedgerView {
                root_nodes: old(self)@.root_nodes.push(roots@),
                ..old(self)@
            }),
    {
        self.root_nodes.push(roots);
        assert(self@.root_nodes =~= old(self)@.root_nodes.push(roots@));
    }

    /// Reset roots cache at the end of the sanity gc.
    pub fn clear_roots_cache(&mut self)
        ensures
            final(self)@ == (LedgerView {
                root_edges: Seq::empty(),
                root_nodes: Seq::empty(),
                ..old(self)@
            }),
    {
        self.root_edges.clear();
        self.root_nodes.clear();
        assert(self@.root_edges =~= Seq::empty());
        assert(self@.root_nodes =~= Seq::empty());
    }

    /// Hands out the cached groups of root edges and of root nodes, and
    /// leaves both caches empty.
    pub fn consume_and_clear_roots(&mut self) -> (groups: (Vec<Vec<u64>>, Vec<Vec<u64>>))
        ensures
            group_views(groups.0@) == old(self)@.root_edges,
            group_views(groups.1@) == old(self)@.root_nodes,
            final(self)@ == (LedgerView {
                root_edges: Seq::empty(),
                root_nodes: Seq::empty(),
                ..old(self)@
            }),
    {
        let mut root_edges: Vec<Vec<u64>> = Vec::new();
        let mut root_nodes: Vec<Vec<u64>> = Vec::new();
        std::mem::swap(&mut root_edges, &mut self.root_edges);
        std::mem::swap(&mut root_nodes, &mut self.root_nodes);
        assert(self@.root_edges =~= Seq::empty());
        assert(self@.root_nodes =~= Seq::empty());
        (root_edges, root_nodes)
    }

    /// Starts a pass: nothing is marked, and a profiled pass opens a new
    /// epoch for its shapes.
    pub fn begin_pass(&mut self, in_harness: bool)
        ensures
            final(self)@ == (LedgerView {
                visited: Set::empty(),
                epochs: if in_harness {
                    old(self)@.epochs.push(Seq::empty())
                } else {
                    old(self)@.epochs
                },
                ..old(self)@
            }),
    {
        self.refs.clear();
        if in_harness {
            self.iter.open_epoch();
        }
    }

    /// Marks `object` as visited in the current pass.
    pub fn mark(&mut self, object: u64)
        ensures
            final(self)@ == old(self)@.mark(object),
    {
        broadcast use vstd::std_specs::hash::group_hash_axioms;

        self.refs.insert(object);
    }

    /// Whether an epoch is open to take shapes.
    pub fn has_open_epoch(&self) -> (open: bool)
        ensures
            open == (self@.epochs.len() > 0),
    {
        self.iter.epochs.len() > 0
    }

    /// Adds the shape and the record of one object to the newest epoch and
    /// to the capture. Returns `false`, and changes nothing, when no epoch
    /// is open.
    pub fn record_capture(&mut self, shape: Shape, record: HeapObject) -> (recorded: bool)
        ensures
            recorded == (old(self)@.epochs.len() > 0),
            recorded ==> final(self)@ == old(self)@.with_shape(shape@).with_record(record@),
            !recorded ==> final(self)@ == old(self)@,
    {
        if self.iter.record(shape) {
            self.heapdump.objects.push(record);
            assert(self@.capture.objects =~= old(self)@.capture.objects.push(record@));
            assert(self@.capture.spaces =~= old(self)@.capture.spaces);
            true
        } else {
            false
        }
    }

    /// Adds a root that refers to `target` to the capture.
    pub fn record_root(&mut self, target: u64)
        ensures
            final(self)@ == old(self)@.with_roots(seq![RootEdge { objref: target }]),
    {
        self.heapdump.roots.push(RootEdge { objref: target });
        assert(self@.capture.roots =~= old(self)@.capture.roots + seq![RootEdge { objref: target }]);
        assert(self@.capture.objects =~= old(self)@.capture.objects);
        assert(self@.capture.spaces =~= old(self)@.capture.spaces);
    }

    /// Adds `roots` to the roots of the capture, in order.
    pub fn record_roots(&mut self, roots: Vec<RootEdge>)
        ensures
            final(self)@ == old(self)@.with_roots(roots@),
    {
        let mut roots = roots;
        self.heapdump.roots.append(&mut roots);
        assert(self@.capture.objects =~= old(self)@.capture.objects);
        assert(self@.capture.spaces =~= old(self)@.capture.spaces);
    }

    /// Adds the description of a space of the plan to the capture. A
    /// space that is not contiguous, or that ends beyond the address
    /// range, is a fault, and then nothing is recorded.
    pub fn record_space(&mut self, space: &CommonSpace) -> (r: Result<(), SanityError>)
        ensures
            r == (match space_fault(space@) {
                Some(e) => Err::<(), SanityError>(e),
                None => Ok(()),
            }),
            r is Err ==> final(self)@ == old(self)@,
            r is Ok ==> final(self)@ == (LedgerView {
                capture: HeapDumpView {
                    spaces: old(self)@.capture.spaces.push(described(space@)),
                    ..old(self)@.capture
                },
                ..old(self)@
            }),
    {
        if !space.contiguous {
            return Err(SanityError::NonContiguousSpace);
        }
        if space.extent > u64::MAX - space.start {
            return Err(SanityError::SpaceOutOfRange);
        }
        let described = Space {
            name: space.name.clone(),
            start: space.start,
            end: space.start + space.extent,
        };
        self.heapdump.spaces.push(described);
        assert(self@.capture.spaces =~= old(self)@.capture.spaces.push(described@));
        assert(self@.capture.objects =~= old(self)@.capture.objects);
        Ok(())
    }

    /// Ends a pass. A profiled pass describes the spaces of the plan in the
    /// capture, brings the capture into its stored form and names it after
    /// the pass. Then, profiled or not, the cached roots and the capture
    /// are cleared. A profiled pass fails where a space is not contiguous,
    /// else where a space ends beyond the address range, else where the
    /// compressor makes no frame of the stored form; then nothing changes.
    pub fn end_pass(&mut self, in_harness: bool, gc_count: usize, spaces: &Vec<CommonSpace>) -> (r:
        Result<Option<StoredCapture>, SanityError>)
        ensures
            !in_harness ==> r == Ok::<Option<StoredCapture>, SanityError>(None),
            in_harness && spaces_fault(common_space_views(spaces@)) is Some ==> r == Err::<
                Option<StoredCapture>,
                SanityError,
            >(spaces_fault(common_space_views(spaces@))->0),
            in_harness && spaces_fault(common_space_views(spaces@)) is None ==> {
                &&& r is Ok <==> zstd_frame(
                    dump_bytes(with_spaces(old(self)@.capture, common_space_views(spaces@))),
                    0,
                ) is Some
                &&& r is Ok ==> r->Ok_0 is Some
                &&& r is Err ==> r->Err_0 == SanityError::CaptureNotStored
            },
            r is Err ==> final(self)@ == old(self)@,
            r is Ok ==> final(self)@ == (LedgerView {
                root_edges: Seq::empty(),
                root_nodes: Seq::empty(),
                capture: HeapDumpView::empty(),
                ..old(self)@
            }),
            r is Ok && r->Ok_0 is Some ==> ({
                let stored = r->Ok_0->0;
                let capture = with_spaces(old(self)@.capture, common_space_views(spaces@));
                &&& stored.file_name@ == capture_name(gc_count as nat)
                &&& Some(stored.bytes@) == zstd_frame(dump_bytes(capture), 0)
                &&& zstd_content(stored.bytes@) == Some(dump_bytes(capture))
            }),
    {
        if !in_harness {
            self.clear_roots_cache();
            self.heapdump.reset();
            return Ok(None);
        }
        let ghost views = common_space_views(spaces@);
        let mut i: usize = 0;
        while i < spaces.len()
            invariant
                i <= spaces.len(),
                in_harness,
                self@ == old(self)@,
                views == common_space_views(spaces@),
                forall|j: int| 0 <= j < i ==> (#[trigger] views[j]).contiguous,
            decreases spaces.len() - i,
        {
            if !spaces[i].contiguous {
                assert(!views[i as int].contiguous);
                return Err(SanityError::NonContiguousSpace);
            }
            i += 1;
        }
        let mut i: usize = 0;
        while i < spaces.len()
            invariant
                i <= spaces.len(),
                in_harness,
                self@ == old(self)@,
                views == common_space_views(spaces@),
                forall|j: int| 0 <= j < views.len() ==> (#[trigger] views[j]).contiguous,
                forall|j: int|
                    0 <= j < i ==> (#[trigger] views[j]).start + views[j].extent <= u64::MAX,
            decreases spaces.len() - i,
        {
            if spaces[i].extent > u64::MAX - spaces[i].start {
                assert(views[i as int].start + views[i as int].extent > u64::MAX);
                return Err(SanityError::SpaceOutOfRange);
            }
            i += 1;
        }
        assert(spaces_fault(views) is None);
        let kept = self.heapdump.spaces.len();
        let ghost before = self@;
        let mut i: usize = 0;
        assert(before.capture.spaces + all_described(views.take(0)) =~= before.capture.spaces);
        while i < spaces.len()
            invariant
                i <= spaces.len(),
                views == common_space_views(spaces@),
                forall|j: int| 0 <= j < views.len() ==> space_fault(#[trigger] views[j]) is None,
                before == old(self)@,
                kept == before.capture.spaces.len(),
                self@ == (LedgerView {
                    capture: HeapDumpView {
                        spaces: before.capture.spaces + all_described(views.take(i as int)),
                        ..before.capture
                    },
                    ..before
                }),
            decreases spaces.len() - i,
        {
            let ghost so_far = self@.capture.spaces;
            assert(space_fault(views[i as int]) is None);
            let recorded = self.record_space(&spaces[i]);
            assert(recorded is Ok);
            assert(so_far.push(described(views[i as int])) =~= before.capture.spaces
                + all_described(views.take(i + 1)));
            i += 1;
        }
        assert(views.take(i as int) =~= views);
        assert(self@.capture == with_spaces(before.capture, views));
        match self.heapdump.dump_to_bytes() {
            Ok(bytes) => {
                self.clear_roots_cache();
                self.heapdump.reset();
                Ok(Some(StoredCapture { file_name: capture_file_name(gc_count), bytes }))
            },
            Err(_) => {
                let ghost full = self@.capture.spaces;
                let ghost held = self.heapdump.spaces@;
                assert(forall|k: int| 0 <= k < held.len() ==> full[k] == held[k]@);
                self.heapdump.spaces.truncate(kept);
                assert forall|k: int| 0 <= k < kept implies self@.capture.spaces[k]
                    == before.capture.spaces[k] by {
                    assert(self.heapdump.spaces@[k] == held[k]);
                    assert(full[k] == before.capture.spaces[k]);
                }
                assert(self@.capture.spaces =~= before.capture.spaces);
                assert(self@.capture.objects =~= before.capture.objects);
                Err(SanityError::CaptureNotStored)
            },
        }
    }

    /// Whether `object` has been marked in the current pass.
    pub fn is_marked(&self, object: u64) -> (marked: bool)
        ensures
            marked == self@.visited.contains(object),
    {
        broadcast use vstd::std_specs::hash::group_hash_axioms;

        self.refs.contains(&object)
    }

    /// How many objects the current pass has marked.
    pub fn marked_count(&self) -> (count: usize)
        ensures
            count == self@.visited.len(),
    {
        broadcast use vstd::std_specs::hash::group_hash_axioms;

        self.refs.len()
    }

    /// The cached groups of root slots.
    pub fn root_edges(&self) -> (groups: &Vec<Vec<u64>>)
        ensures
            group_views(groups@) == self@.root_edges,
    {
        &self.root_edges
    }

    /// The cached groups of root objects.
    pub fn root_nodes(&self) -> (groups: &Vec<Vec<u64>>)
        ensures
            group_views(groups@) == self@.root_nodes,
    {
        &self.root_nodes
    }

    /// The shapes recorded so far.
    pub fn shapes(&self) -> (iter: &ShapesIteration)
        ensures
            iter@ == self@.epochs,
    {
        &self.iter
    }

    /// The capture of the current pass.
    pub fn capture(&self) -> (dump: &HeapDump)
        ensures
            dump@ == self@.capture,
    {
        &self.heapdump
    }
}

} // verus!
