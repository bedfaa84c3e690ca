//! The heap graph that a profiled sanity pass captures: the spaces of the
//! heap, one record per live object with its outgoing references, and the
//! roots the trace started from.

use vstd::prelude::*;

verus! {

/// A reference held in a slot of a heap object: where the slot is, and the
/// object it refers to (zero for a null reference).
#[derive(Clone, Copy, Debug, PartialEq, Eq)]
pub struct NormalEdge {
    pub slot: u64,
    pub objref: u64,
}

/// A reference held outside the heap. Only its target is known.
#[derive(Clone, Copy, Debug, PartialEq, Eq)]
pub struct RootEdge {
    pub objref: u64,
}

/// The record of one live object.
#[derive(Clone, Debug, PartialEq, Eq)]
pub struct HeapObject {
    pub start: u64,
    pub klass: u64,
    pub size: u64,
    pub objarray_length: Option<u64>,
    pub instance_mirror_start: Option<u64>,
    pub instance_mirror_count: Option<u64>,
    pub edges: Vec<NormalEdge>,
}

/// A contiguous region of the heap, `[start, end)`.
#[derive(Clone, Debug, PartialEq, Eq)]
pub struct Space {
    pub name: String,
    pub start: u64,
    pub end: u64,
}

/// Everything one sanity pass captured.
#[derive(Clone, Debug, PartialEq, Eq)]
pub struct HeapDump {
    pub objects: Vec<HeapObject>,
    pub roots: Vec<RootEdge>,
    pub spaces: Vec<Space>,
}

/// What a [`HeapObject`] holds, as a mathematical value.
pub struct HeapObjectView {
    pub start: u64,
    pub klass: u64,
    pub size: u64,
    pub objarray_length: Option<u64>,
    pub instance_mirror_start: Option<u64>,
    pub instance_mirror_count: Option<u64>,
    pub edges: Seq<NormalEdge>,
}

/// What a [`Space`] holds, as a mathematical value.
pub struct SpaceView {
    pub name: Seq<char>,
    pub start: u64,
    pub end: u64,
}

/// What a [`HeapDump`] holds, as a mathematical value.
pub struct HeapDumpView {
    pub objects: Seq<HeapObjectView>,
    pub roots: Seq<RootEdge>,
    pub spaces: Seq<SpaceView>,
}

impl View for HeapObject {
    type V = HeapObjectView;

    open spec fn view(&self) -> HeapObjectView {
        HeapObjectView {
            start: self.start,
            klass: self.klass,
            size: self.size,
            objarray_length: self.objarray_length,
            instance_mirror_start: self.instance_mirror_start,
            instance_mirror_count: self.instance_mirror_count,
            edges: self.edges@,
        }
    }
}

impl View for Space {
    type V = SpaceView;

    open spec fn view(&self) -> SpaceView {
        SpaceView { name: self.name@, start: self.start, end: self.end }
    }
}

/// The views of a sequence of object records, in order.
pub open spec fn object_views(objects: Seq<HeapObject>) -> Seq<HeapObjectView> {
    Seq::new(objects.len(), |i: int| objects[i]@)
}

/// The views of a sequence of spaces, in order.
pub open spec fn space_views(spaces: Seq<Space>) -> Seq<SpaceView> {
    Seq::new(spaces.len(), |i: int| spaces[i]@)
}

impl View for HeapDump {
    type V = HeapDumpView;

    open spec fn view(&self) -> HeapDumpView {
        HeapDumpView {
            objects: object_views(self.objects@),
            roots: self.roots@,
            spaces: space_views(self.spaces@),
        }
    }
}

impl HeapDumpView {
    /// The capture that holds nothing.
    pub open spec fn empty() -> HeapDumpView {
        HeapDumpView { objects: Seq::empty(), roots: Seq::empty(), spaces: Seq::empty() }
    }

    /// Whether some record of the capture describes the object at `object`.
    pub open spec fn has_record(self, object: u64) -> bool {
        exists|i: int| 0 <= i < self.objects.len() && #[trigger] self.objects[i].start == object
    }
}

impl HeapDump {
    /// An empty capture.
    pub fn new() -> (dump: HeapDump)
        ensures
            dump@ == HeapDumpView::empty(),
    {
        let dump = HeapDump { objects: Vec::new(), roots: Vec::new(), spaces: Vec::new() };
        assert(dump@.objects =~= Seq::empty());
        assert(dump@.spaces =~= Seq::empty());
        dump
    }

    /// Forgets everything captured so far.
    pub fn reset(&mut self)
        ensures
            final(self)@ == HeapDumpView::empty(),
    {
        self.objects.clear();
        self.roots.clear();
        self.spaces.clear();
        assert(self@.objects =~= Seq::empty());
        assert(self@.spaces =~= Seq::empty());
    }
}

} // verus!
