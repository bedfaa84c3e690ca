//! The heap image that a capture is replayed into: the address ranges of
//! its spaces, the reference fields written into them, and a header for
//! each object. A field that was never written holds zero. Headers are
//! kept apart from the fields: writing a field never changes a header.

use crate::heapdump::{HeapDump, HeapDumpView, HeapObject, HeapObjectView, NormalEdge, SpaceView};
use crate::tib::{compacted, slot_offsets, Tib, TibCache, TibView};
use std::collections::HashMap;
use vstd::prelude::*;

verus! {

/// Why a capture could not be replayed.
#[derive(Clone, Copy, Debug, PartialEq, Eq)]
pub enum ReplayError {
    /// The range of the space that starts at `start` could not be mapped:
    /// it is empty, or part of it is mapped already.
    MapFailed { start: u64 },
    /// The field at `address` lies outside the mapped ranges or does not
    /// start on a word.
    BadAddress { address: u64 },
    /// The object at `object` has no type-info block.
    NullTib { object: u64 },
}

/// A mapped range of addresses, `[start, end)`.
#[derive(Clone, Copy, Debug, PartialEq, Eq)]
pub struct MappedRange {
    pub start: u64,
    pub end: u64,
}

/// The header of an object: its mark (zero while the object is not
/// visited), the class whose type-info block describes it, and the number
/// of its elements where it is an array of references.
#[derive(Clone, Copy, Debug, PartialEq, Eq)]
pub struct ObjectHeader {
    pub mark: u64,
    pub tib: u64,
    pub length: u64,
}

/// The part of a header that the closure does not change.
pub struct HeaderShape {
    pub tib: u64,
    pub length: u64,
}

/// A heap image as a mathematical value.
pub struct ImageView {
    /// The mapped ranges, in the order they were mapped.
    pub ranges: Seq<MappedRange>,
    /// The fields that were written, by address.
    pub words: Map<u64, u64>,
    /// The class and the length of each object, by its address.
    pub shapes: Map<u64, HeaderShape>,
    /// The objects whose mark is set.
    pub marks: Set<u64>,
    /// The type-info blocks, by class.
    pub tibs: Map<u64, TibView>,
}

/// Whether the word at `address` lies within `range`.
pub open spec fn holds_word(range: MappedRange, address: int) -> bool {
    range.start <= address && address + 8 <= range.end
}

/// Whether `range` and `[start, end)` have an address in common.
pub open spec fn overlaps(range: MappedRange, start: u64, end: u64) -> bool {
    start < range.end && range.start < end
}

/// The fields after the references `edges` were written, one after
/// another.
pub open spec fn written(words: Map<u64, u64>, edges: Seq<NormalEdge>) -> Map<u64, u64>
    decreases edges.len(),
{
    if edges.len() == 0 {
        words
    } else {
        written(words, edges.drop_last()).insert(edges.last().slot, edges.last().objref)
    }
}

impl ImageView {
    /// The image with nothing mapped.
    pub open spec fn empty() -> ImageView {
        ImageView {
            ranges: Seq::empty(),
            words: Map::empty(),
            shapes: Map::empty(),
            marks: Set::empty(),
            tibs: Map::empty(),
        }
    }

    /// Whether a field can stand at `address`: the address is that of a
    /// word, and the word lies in a mapped range.
    pub open spec fn readable(self, address: int) -> bool {
        &&& 0 <= address
        &&& address % 8 == 0
        &&& exists|i: int| 0 <= i < self.ranges.len() && holds_word(#[trigger] self.ranges[i], address)
    }

    /// What the field at `address` holds.
    pub open spec fn word(self, address: u64) -> u64 {
        if self.words.contains_key(address) {
            self.words[address]
        } else {
            0
        }
    }

    /// Whether the range `[start, end)` can be mapped.
    pub open spec fn can_map(self, start: u64, end: u64) -> bool {
        &&& start < end
        &&& forall|i: int| 0 <= i < self.ranges.len() ==> !overlaps(#[trigger] self.ranges[i], start, end)
    }

    /// The image after `[start, end)` was mapped.
    pub open spec fn mapped(self, start: u64, end: u64) -> ImageView {
        ImageView { ranges: self.ranges.push(MappedRange { start, end }), ..self }
    }

    /// The first address that placing `object` needs and that no field of
    /// it can stand at: the words of its header come first, then the slots
    /// of its references in order. A slot before the start of the object is
    /// no place for a field of it.
    pub open spec fn place_fault(self, object: HeapObjectView) -> Option<u64> {
        if !self.readable(object.start as int) {
            Some(object.start)
        } else if !self.readable(object.start + 8) {
            Some((object.start + 8) as u64)
        } else if object.objarray_length is Some && !self.readable(object.start + 16) {
            Some((object.start + 16) as u64)
        } else {
            first_bad_slot(self, object.start, object.edges)
        }
    }

    /// The image after `object` was placed: its class has a type-info
    /// block, built from this record unless the class had one; its header
    /// is written, unmarked; and its references are written to their
    /// slots.
    pub open spec fn placed(self, object: HeapObjectView) -> ImageView {
        ImageView {
            ranges: self.ranges,
            words: written(self.words, object.edges),
            shapes: self.shapes.insert(
                object.start,
                HeaderShape {
                    tib: object.klass,
                    length: match object.objarray_length {
                        Some(length) => length,
                        None => 0,
                    },
                },
            ),
            marks: self.marks.remove(object.start),
            tibs: if self.tibs.contains_key(object.klass) {
                self.tibs
            } else {
                self.tibs.insert(object.klass, tib_of(object))
            },
        }
    }
}

/// The type-info block that a record gives its class: that of an array of
/// references where the record has a length, else the blocks that its
/// references are compacted into.
pub open spec fn tib_of(object: HeapObjectView) -> TibView {
    if object.objarray_length is Some {
        TibView { is_objarray: true, oop_map_blocks: Seq::empty() }
    } else {
        TibView { is_objarray: false, oop_map_blocks: compacted(slot_offsets(object)) }
    }
}

/// The slot of the first reference among `edges` at which no field of
/// the object that starts at `start` can stand: it lies before `start`, or
/// no field can stand there at all.
pub open spec fn first_bad_slot(image: ImageView, start: u64, edges: Seq<NormalEdge>) -> Option<u64>
    decreases edges.len(),
{
    if edges.len() == 0 {
        None
    } else if edges[0].slot < start || !image.readable(edges[0].slot as int) {
        Some(edges[0].slot)
    } else {
        first_bad_slot(image, start, edges.drop_first())
    }
}

/// Where no slot is bad, every reference lies at or after the start.
pub proof fn lemma_no_bad_slot(image: ImageView, start: u64, edges: Seq<NormalEdge>)
    requires
        first_bad_slot(image, start, edges) is None,
    ensures
        forall|i: int|
            0 <= i < edges.len() ==> (#[trigger] edges[i]).slot >= start && image.readable(
                edges[i].slot as int,
            ),
    decreases edges.len(),
{
    if edges.len() > 0 {
        lemma_no_bad_slot(image, start, edges.drop_first());
        assert forall|i: int| 0 <= i < edges.len() implies (#[trigger] edges[i]).slot >= start
            && image.readable(edges[i].slot as int) by {
            if i > 0 {
                assert(edges[i] == edges.drop_first()[i - 1]);
            }
        }
    }
}

/// What mapping the spaces in order comes to: the image, or the fault of
/// the first space that cannot be mapped.
pub open spec fn spaces_mapped(image: ImageView, spaces: Seq<SpaceView>) -> Result<
    ImageView,
    ReplayError,
>
    decreases spaces.len(),
{
    if spaces.len() == 0 {
        Ok(image)
    } else {
        match spaces_mapped(image, spaces.drop_last()) {
            Err(e) => Err(e),
            Ok(before) => if before.can_map(spaces.last().start, spaces.last().end) {
                Ok(before.mapped(spaces.last().start, spaces.last().end))
            } else {
                Err(ReplayError::MapFailed { start: spaces.last().start })
            },
        }
    }
}

/// What placing the objects in order comes to: the image, or the fault of
/// the first object that cannot be placed.
pub open spec fn objects_placed(image: ImageView, objects: Seq<HeapObjectView>) -> Result<
    ImageView,
    ReplayError,
>
    decreases objects.len(),
{
    if objects.len() == 0 {
        Ok(image)
    } else {
        match objects_placed(image, objects.drop_last()) {
            Err(e) => Err(e),
            Ok(before) => match before.place_fault(objects.last()) {
                Some(address) => Err(ReplayError::BadAddress { address }),
                None => Ok(before.placed(objects.last())),
            },
        }
    }
}

/// The image that a capture is rebuilt into: its spaces mapped, then its
/// objects placed, each in the order of the capture.
pub open spec fn rebuilt(dump: HeapDumpView) -> Result<ImageView, ReplayError> {
    match spaces_mapped(ImageView::empty(), dump.spaces) {
        Err(e) => Err(e),
        Ok(image) => objects_placed(image, dump.objects),
    }
}

/// A heap image.
pub struct HeapImage {
    ranges: Vec<MappedRange>,
    words: HashMap<u64, u64>,
    headers: HashMap<u64, ObjectHeader>,
    tibs: TibCache,
}

impl View for HeapImage {
    type V = ImageView;

    closed spec fn view(&self) -> ImageView {
        ImageView {
            ranges: self.ranges@,
            words: self.words@,
            shapes: Map::new(
                |o: u64| self.headers@.contains_key(o),
                |o: u64| HeaderShape { tib: self.headers@[o].tib, length: self.headers@[o].length },
            ),
            marks: Set::new(|o: u64| self.headers@.contains_key(o) && self.headers@[o].mark != 0),
            tibs: self.tibs@,
        }
    }
}

impl HeapImage {
    /// An image with nothing mapped.
    pub fn new() -> (image: HeapImage)
        ensures
            image@ == ImageView::empty(),
    {
        let image = HeapImage {
            ranges: Vec::new(),
            words: HashMap::new(),
            headers: HashMap::new(),
            tibs: TibCache::new(),
        };
        assert(image@.shapes =~= Map::empty());
        assert(image@.marks =~= Set::empty());
        image
    }

    /// Whether a field can stand at `address`.
    pub fn is_readable(&self, address: u64) -> (yes: bool)
        ensures
            yes == self@.readable(address as int),
    {
        if address % 8 != 0 {
            return false;
        }
        let mut i: usize = 0;
        while i < self.ranges.len()
            invariant
                i <= self.ranges.len(),
                address % 8 == 0,
                forall|j: int| 0 <= j < i ==> !holds_word(#[trigger] self.ranges@[j], address as int),
            decreases self.ranges.len() - i,
        {
            let range = self.ranges[i];
            if range.start <= address && range.end >= 8 && address <= range.end - 8 {
                assert(holds_word(self@.ranges[i as int], address as int));
                return true;
            }
            i += 1;
        }
        false
    }

    /// What the field at `address` holds; zero where nothing was written.
    pub fn read(&self, address: u64) -> (value: u64)
        ensures
            value == self@.word(address),
    {
        broadcast use vstd::std_specs::hash::group_hash_axioms;

        match self.words.get(&address) {
            Some(value) => *value,
            None => 0,
        }
    }

    /// Writes `value` to the field at `address`.
    pub fn write(&mut self, address: u64, value: u64) -> (r: Result<(), ReplayError>)
        ensures
            r is Ok <==> old(self)@.readable(address as int),
            r is Ok ==> final(self)@ == (ImageView {
                words: old(self)@.words.insert(address, value),
                ..old(self)@
            }),
            r is Err ==> r->Err_0 == (ReplayError::BadAddress { address }) && final(self)@ == old(
                self,
            )@,
    {
        broadcast use vstd::std_specs::hash::group_hash_axioms;

        if !self.is_readable(address) {
            return Err(ReplayError::BadAddress { address });
        }
        self.words.insert(address, value);
        assert(self@.shapes =~= old(self)@.shapes);
        assert(self@.marks =~= old(self)@.marks);
        Ok(())
    }

    /// The header of the object at `object`, where one was placed there.
    pub fn header(&self, object: u64) -> (header: Option<ObjectHeader>)
        ensures
            header is Some <==> self@.shapes.contains_key(object),
            header is Some ==> self@.shapes[object] == (HeaderShape {
                tib: header->0.tib,
                length: header->0.length,
            }) && (header->0.mark != 0 <==> self@.marks.contains(object)),
    {
        broadcast use vstd::std_specs::hash::group_hash_axioms;

        match self.headers.get(&object) {
            Some(header) => Some(*header),
            None => None,
        }
    }

    /// The type-info block of the class `klass`, where one was built.
    pub fn tib(&self, klass: u64) -> (tib: Option<&Tib>)
        ensures
            tib is Some <==> self@.tibs.contains_key(klass),
            tib is Some ==> tib->0@ == self@.tibs[klass],
    {
        self.tibs.get(klass)
    }

    /// How many objects were placed.
    pub fn object_count(&self) -> (n: usize)
        ensures
            n == self@.shapes.dom().len(),
    {
        broadcast use vstd::std_specs::hash::group_hash_axioms;

        assert(self@.shapes.dom() =~= self.headers@.dom());
        self.headers.len()
    }

    /// The objects of an image are finitely many, fewer than a machine
    /// word can count, and only they can be marked.
    pub proof fn lemma_objects(&self)
        ensures
            self@.shapes.dom().finite(),
            self@.shapes.dom().len() <= usize::MAX,
            forall|o: u64| self@.marks.contains(o) ==> self@.shapes.contains_key(o),
    {
        broadcast use vstd::std_specs::hash::group_hash_axioms;

        assert(self@.shapes.dom() =~= self.headers@.dom());
        assert(self.headers.len() == self.headers@.len());
    }

    /// Sets the mark of the object at `object`. Where no object was
    /// placed there, nothing is marked.
    pub fn set_mark(&mut self, object: u64)
        ensures
            old(self)@.shapes.contains_key(object) ==> final(self)@ == (ImageView {
                marks: old(self)@.marks.insert(object),
                ..old(self)@
            }),
            !old(self)@.shapes.contains_key(object) ==> final(self)@ == old(self)@,
    {
        broadcast use vstd::std_specs::hash::group_hash_axioms;

        let header = match self.headers.get(&object) {
            Some(header) => *header,
            None => {
                return ;
            },
        };
        self.headers.insert(object, ObjectHeader { mark: 1, tib: header.tib, length: header.length });
        assert(self@.shapes =~= old(self)@.shapes);
        assert(self@.marks =~= old(self)@.marks.insert(object));
    }

    /// Maps the range `[start, end)`. An empty range, and one that
    /// reaches into a range mapped before, cannot be mapped.
    pub fn map_space(&mut self, start: u64, end: u64) -> (r: Result<(), ReplayError>)
        ensures
            r is Ok <==> old(self)@.can_map(start, end),
            r is Ok ==> final(self)@ == old(self)@.mapped(start, end),
            r is Err ==> r->Err_0 == (ReplayError::MapFailed { start }) && final(self)@ == old(
                self,
            )@,
    {
        if start >= end {
            return Err(ReplayError::MapFailed { start });
        }
        let mut i: usize = 0;
        while i < self.ranges.len()
            invariant
                i <= self.ranges.len(),
                self@ == old(self)@,
                forall|j: int| 0 <= j < i ==> !overlaps(#[trigger] self.ranges@[j], start, end),
            decreases self.ranges.len() - i,
        {
            let range = self.ranges[i];
            if start < range.end && range.start < end {
                assert(overlaps(old(self)@.ranges[i as int], start, end));
                return Err(ReplayError::MapFailed { start });
            }
            i += 1;
        }
        self.ranges.push(MappedRange { start, end });
        assert(self@.shapes =~= old(self)@.shapes);
        assert(self@.marks =~= old(self)@.marks);
        Ok(())
    }

    /// The first address that placing `object` needs and that no field can
    /// stand at.
    fn find_place_fault(&self, object: &HeapObject) -> (fault: Option<u64>)
        ensures
            fault == self@.place_fault(object@),
    {
        if !self.is_readable(object.start) {
            return Some(object.start);
        }
        // A readable word ends within the address range, so the header
        // word after it starts within it.
        assert(object.start + 8 <= u64::MAX);
        if !self.is_readable(object.start + 8) {
            return Some(object.start + 8);
        }
        if object.objarray_length.is_some() {
            assert(object.start + 16 <= u64::MAX);
            if !self.is_readable(object.start + 16) {
                return Some(object.start + 16);
            }
        }
        let ghost edges = object@.edges;
        let mut i: usize = 0;
        assert(edges.skip(0) =~= edges);
        while i < object.edges.len()
            invariant
                i <= object.edges.len(),
                edges == object.edges@,
                self@.place_fault(object@) == first_bad_slot(self@, object.start, edges),
                first_bad_slot(self@, object.start, edges) == first_bad_slot(
                    self@,
                    object.start,
                    edges.skip(i as int),
                ),
            decreases object.edges.len() - i,
        {
            assert(edges.skip(i as int)[0] == edges[i as int]);
            assert(edges.skip(i as int).drop_first() =~= edges.skip(i + 1));
            let slot = object.edges[i].slot;
            if slot < object.start || !self.is_readable(slot) {
                return Some(slot);
            }
            i += 1;
        }
        None
    }

    /// Places an object: builds the type-info block of its class unless
    /// the class has one, writes its header, unmarked, and writes each of
    /// its references to its slot. Where a word of the header or a slot
    /// is no place for a field, nothing is written.
    pub fn place_object(&mut self, object: &HeapObject) -> (r: Result<(), ReplayError>)
        ensures
            r == (match old(self)@.place_fault(object@) {
                Some(address) => Err::<(), ReplayError>(ReplayError::BadAddress { address }),
                None => Ok(()),
            }),
            r is Ok ==> final(self)@ == old(self)@.placed(object@),
            r is Err ==> final(self)@ == old(self)@,
    {
        broadcast use vstd::std_specs::hash::group_hash_axioms;

        match self.find_place_fault(object) {
            Some(address) => {
                return Err(ReplayError::BadAddress { address });
            },
            None => {},
        }
        let length = match object.objarray_length {
            Some(length) => {
                Tib::objarray(&mut self.tibs, object.klass);
                length
            },
            None => {
                proof {
                    lemma_no_bad_slot(old(self)@, object.start, object@.edges);
                }
                Tib::non_objarray(&mut self.tibs, object.klass, object);
                0
            },
        };
        self.headers.insert(object.start, ObjectHeader { mark: 0, tib: object.klass, length });
        let ghost edges = object@.edges;
        let ghost before = old(self)@.words;
        let mut i: usize = 0;
        assert(edges.take(0) =~= Seq::<NormalEdge>::empty());
        while i < object.edges.len()
            invariant
                i <= object.edges.len(),
                edges == object.edges@,
                self.words@ == written(before, edges.take(i as int)),
                self.ranges == old(self).ranges,
                self.tibs@ == old(self)@.placed(object@).tibs,
                self.headers@ == old(self).headers@.insert(
                    object.start,
                    ObjectHeader { mark: 0, tib: object.klass, length },
                ),
            decreases object.edges.len() - i,
        {
            let edge = object.edges[i];
            assert(edges.take(i + 1).drop_last() =~= edges.take(i as int));
            self.words.insert(edge.slot, edge.objref);
            i += 1;
        }
        assert(edges.take(i as int) =~= edges);
        assert(self@.shapes =~= old(self)@.placed(object@).shapes);
        assert(self@.marks =~= old(self)@.placed(object@).marks);
        Ok(())
    }

    /// Rebuilds the heap of a capture: maps each space, then places each
    /// object, in the order of the capture, up to the first fault.
    pub fn reconstruct(dump: &HeapDump) -> (r: Result<HeapImage, ReplayError>)
        ensures
            match (rebuilt(dump@), r) {
                (Ok(expected), Ok(image)) => image@ == expected,
                (Err(expected), Err(e)) => e == expected,
                _ => false,
            },
    {
        let mut image = HeapImage::new();
        let ghost spaces = dump@.spaces;
        let mut i: usize = 0;
        assert(spaces.take(0) =~= Seq::<SpaceView>::empty());
        while i < dump.spaces.len()
            invariant
                i <= dump.spaces.len(),
                spaces == dump@.spaces,
                spaces_mapped(ImageView::empty(), spaces.take(i as int)) == Ok::<
                    ImageView,
                    ReplayError,
                >(image@),
            decreases dump.spaces.len() - i,
        {
            let space = &dump.spaces[i];
            assert(spaces.take(i + 1).drop_last() =~= spaces.take(i as int));
            assert(spaces.take(i + 1).last() == space@);
            match image.map_space(space.start, space.end) {
                Ok(()) => {},
                Err(e) => {
                    proof {
                        lemma_spaces_fault_stays(ImageView::empty(), spaces, i + 1);
                    }
                    return Err(e);
                },
            }
            i += 1;
        }
        assert(spaces.take(i as int) =~= spaces);
        let ghost mapped = image@;
        let ghost objects = dump@.objects;
        let mut i: usize = 0;
        assert(objects.take(0) =~= Seq::<HeapObjectView>::empty());
        while i < dump.objects.len()
            invariant
                i <= dump.objects.len(),
                objects == dump@.objects,
                spaces_mapped(ImageView::empty(), dump@.spaces) == Ok::<ImageView, ReplayError>(
                    mapped,
                ),
                objects_placed(mapped, objects.take(i as int)) == Ok::<ImageView, ReplayError>(
                    image@,
                ),
            decreases dump.objects.len() - i,
        {
            let object = &dump.objects[i];
            assert(objects.take(i + 1).drop_last() =~= objects.take(i as int));
            assert(objects.take(i + 1).last() == object@);
            match image.place_object(object) {
                Ok(()) => {},
                Err(e) => {
                    proof {
                        lemma_objects_fault_stays(mapped, objects, i + 1);
                    }
                    return Err(e);
                },
            }
            i += 1;
        }
        assert(objects.take(i as int) =~= objects);
        Ok(image)
    }
}

/// A space that cannot be mapped stops the mapping for good.
proof fn lemma_spaces_fault_stays(image: ImageView, spaces: Seq<SpaceView>, n: int)
    requires
        0 <= n <= spaces.len(),
        spaces_mapped(image, spaces.take(n)) is Err,
    ensures
        spaces_mapped(image, spaces) == spaces_mapped(image, spaces.take(n)),
    decreases spaces.len() - n,
{
    if n < spaces.len() {
        assert(spaces.take(n + 1).drop_last() =~= spaces.take(n));
        lemma_spaces_fault_stays(image, spaces, n + 1);
    } else {
        assert(spaces.take(n) =~= spaces);
    }
}

/// An object that cannot be placed stops the placing for good.
proof fn lemma_objects_fault_stays(image: ImageView, objects: Seq<HeapObjectView>, n: int)
    requires
        0 <= n <= objects.len(),
        objects_placed(image, objects.take(n)) is Err,
    ensures
        objects_placed(image, objects) == objects_placed(image, objects.take(n)),
    decreases objects.len() - n,
{
    if n < objects.len() {
        assert(objects.take(n + 1).drop_last() =~= objects.take(n));
        lemma_objects_fault_stays(image, objects, n + 1);
    } else {
        assert(objects.take(n) =~= objects);
    }
}

} // verus!
