//! The closure over a heap image: from the roots, every object that can be
//! reached through reference fields is marked once and counted.

use crate::heapdump::{HeapDump, RootEdge};
use crate::image::{rebuilt, HeapImage, ImageView, ReplayError};
use crate::tib::{expand, expand_block, OopMapBlock};
use std::collections::VecDeque;
use vstd::prelude::*;

verus! {

/// The address that lies `distance` after `object`, counted round the
/// address range.
pub open spec fn address_at(object: u64, distance: int) -> int {
    (object + distance) % 0x1_0000_0000_0000_0000
}

/// The addresses of the reference fields of the object at `object`: the
/// elements of an array of references follow its three header words; the
/// fields of another object lie where the blocks of its class say.
pub open spec fn slots_of(image: ImageView, object: u64) -> Seq<int> {
    let shape = image.shapes[object];
    let tib = image.tibs[shape.tib];
    if tib.is_objarray {
        Seq::new(shape.length as nat, |i: int| object + 24 + 8 * i)
    } else {
        Seq::new(
            expand(tib.oop_map_blocks).len(),
            |i: int| address_at(object, expand(tib.oop_map_blocks)[i]),
        )
    }
}

/// Whether the object at `object` can be scanned: it has a header, its
/// class has a type-info block, and a field can stand at each of the
/// addresses of its reference fields.
pub open spec fn scannable(image: ImageView, object: u64) -> bool {
    &&& image.shapes.contains_key(object)
    &&& image.tibs.contains_key(image.shapes[object].tib)
    &&& forall|i: int|
        0 <= i < slots_of(image, object).len() ==> image.readable(
            #[trigger] slots_of(image, object)[i],
        )
}

/// What the reference fields of the object at `object` hold, in order.
pub open spec fn children(image: ImageView, object: u64) -> Seq<u64> {
    Seq::new(
        slots_of(image, object).len(),
        |i: int| image.word(slots_of(image, object)[i] as u64),
    )
}

/// The objects that the roots refer to, in order.
pub open spec fn root_targets(roots: Seq<RootEdge>) -> Seq<u64> {
    Seq::new(roots.len(), |i: int| roots[i].objref)
}

/// Whether `path` leads from a root through reference fields, over
/// objects that are not null and not in `blocked`, each but the last of
/// which can be scanned.
pub open spec fn is_path(
    graph: ImageView,
    blocked: Set<u64>,
    roots: Seq<u64>,
    path: Seq<u64>,
) -> bool {
    &&& path.len() > 0
    &&& roots.contains(path[0])
    &&& forall|i: int|
        #![trigger path[i]]
        0 <= i < path.len() ==> path[i] != 0 && !blocked.contains(path[i])
    &&& forall|i: int|
        #![trigger path[i]]
        0 <= i < path.len() - 1 ==> scannable(graph, path[i]) && children(graph, path[i]).contains(
            path[i + 1],
        )
}

/// Whether a path leads from a root to `object`.
pub open spec fn reached(graph: ImageView, blocked: Set<u64>, roots: Seq<u64>, object: u64) -> bool {
    exists|path: Seq<u64>| is_path(graph, blocked, roots, path) && path.last() == object
}

/// Whether `object` needs no further visit: it is null, marked, or
/// waiting in the queue.
pub open spec fn covered(marks: Set<u64>, queue: Seq<u64>, object: u64) -> bool {
    object == 0 || marks.contains(object) || queue.contains(object)
}

/// Whether `object` is rightly in the queue: it is null, was marked
/// before the closure began, or can be reached.
pub open spec fn justified(
    graph: ImageView,
    blocked: Set<u64>,
    roots: Seq<u64>,
    object: u64,
) -> bool {
    object == 0 || blocked.contains(object) || reached(graph, blocked, roots, object)
}

/// What holds between two steps of the closure. Every object marked by
/// the closure (`fresh`) can be reached and was scanned; every object in
/// the queue is rightly there; and what a marked object or a root refers
/// to needs no further visit or waits in the queue.
pub open spec fn frontier(
    graph: ImageView,
    blocked: Set<u64>,
    roots: Seq<u64>,
    fresh: Set<u64>,
    queue: Seq<u64>,
) -> bool {
    &&& forall|o: u64| #[trigger]
        fresh.contains(o) ==> !blocked.contains(o) && reached(graph, blocked, roots, o)
            && scannable(graph, o)
    &&& forall|i: int|
        0 <= i < queue.len() ==> justified(graph, blocked, roots, #[trigger] queue[i])
    &&& forall|o: u64, i: int|
        fresh.contains(o) && 0 <= i < children(graph, o).len() ==> covered(
            blocked.union(fresh),
            queue,
            #[trigger] children(graph, o)[i],
        )
    &&& forall|i: int|
        0 <= i < roots.len() ==> covered(blocked.union(fresh), queue, #[trigger] roots[i])
}

/// A root that is not null and not blocked is reached.
proof fn lemma_root_reached(graph: ImageView, blocked: Set<u64>, roots: Seq<u64>, root: u64)
    requires
        roots.contains(root),
        root != 0,
        !blocked.contains(root),
    ensures
        reached(graph, blocked, roots, root),
{
    assert(is_path(graph, blocked, roots, seq![root]));
    assert(seq![root].last() == root);
}

/// What a reached object that can be scanned refers to is reached, unless
/// it is null or blocked.
proof fn lemma_child_reached(
    graph: ImageView,
    blocked: Set<u64>,
    roots: Seq<u64>,
    object: u64,
    child: u64,
)
    requires
        reached(graph, blocked, roots, object),
        scannable(graph, object),
        children(graph, object).contains(child),
        child != 0,
        !blocked.contains(child),
    ensures
        reached(graph, blocked, roots, child),
{
    let path = choose|path: Seq<u64>| is_path(graph, blocked, roots, path) && path.last() == object;
    let longer = path.push(child);
    assert forall|i: int| 0 <= i < longer.len() - 1 implies scannable(graph, #[trigger] longer[i])
        && children(graph, longer[i]).contains(longer[i + 1]) by {
        if i < path.len() - 1 {
            assert(longer[i] == path[i]);
            assert(longer[i + 1] == path[i + 1]);
        }
    }
    assert forall|i: int| 0 <= i < longer.len() implies #[trigger] longer[i] != 0
        && !blocked.contains(longer[i]) by {
        if i < path.len() {
            assert(longer[i] == path[i]);
        }
    }
    assert(longer[0] == path[0]);
    assert(is_path(graph, blocked, roots, longer));
    assert(longer.last() == child);
}

/// The closure may begin with the roots in the queue.
proof fn lemma_frontier_begins(graph: ImageView, blocked: Set<u64>, roots: Seq<u64>)
    ensures
        frontier(graph, blocked, roots, Set::empty(), roots),
{
    assert forall|i: int| 0 <= i < roots.len() implies justified(
        graph,
        blocked,
        roots,
        #[trigger] roots[i],
    ) by {
        if roots[i] != 0 && !blocked.contains(roots[i]) {
            lemma_root_reached(graph, blocked, roots, roots[i]);
        }
    }
}

/// An object at the head of the queue that is null or marked is dropped.
proof fn lemma_frontier_skips(
    graph: ImageView,
    blocked: Set<u64>,
    roots: Seq<u64>,
    fresh: Set<u64>,
    queue: Seq<u64>,
)
    requires
        frontier(graph, blocked, roots, fresh, queue),
        queue.len() > 0,
        queue[0] == 0 || blocked.union(fresh).contains(queue[0]),
    ensures
        frontier(graph, blocked, roots, fresh, queue.drop_first()),
{
    let rest = queue.drop_first();
    let marks = blocked.union(fresh);
    assert forall|s: u64| covered(marks, queue, s) implies covered(marks, rest, s) by {
        if s != 0 && !marks.contains(s) {
            let k = choose|k: int| 0 <= k < queue.len() && queue[k] == s;
            assert(rest[k - 1] == s);
        }
    }
    assert forall|i: int| 0 <= i < rest.len() implies justified(
        graph,
        blocked,
        roots,
        #[trigger] rest[i],
    ) by {
        assert(rest[i] == queue[i + 1]);
    }
}

/// An object at the head of the queue that is neither null nor marked is
/// reached.
proof fn lemma_frontier_head(
    graph: ImageView,
    blocked: Set<u64>,
    roots: Seq<u64>,
    fresh: Set<u64>,
    queue: Seq<u64>,
)
    requires
        frontier(graph, blocked, roots, fresh, queue),
        queue.len() > 0,
        queue[0] != 0,
        !blocked.contains(queue[0]),
    ensures
        reached(graph, blocked, roots, queue[0]),
{
    assert(justified(graph, blocked, roots, queue[0]));
}

/// An object at the head of the queue that is marked now and scanned
/// leaves the queue, and what it refers to joins the queue.
proof fn lemma_frontier_visits(
    graph: ImageView,
    blocked: Set<u64>,
    roots: Seq<u64>,
    fresh: Set<u64>,
    queue: Seq<u64>,
)
    requires
        frontier(graph, blocked, roots, fresh, queue),
        queue.len() > 0,
        queue[0] != 0,
        !blocked.union(fresh).contains(queue[0]),
        scannable(graph, queue[0]),
    ensures
        frontier(
            graph,
            blocked,
            roots,
            fresh.insert(queue[0]),
            queue.drop_first() + children(graph, queue[0]),
        ),
{
    let head = queue[0];
    let found = children(graph, head);
    let rest = queue.drop_first();
    let next = rest + found;
    let marks = blocked.union(fresh);
    let grown = fresh.insert(head);
    let marked = blocked.union(grown);
    lemma_frontier_head(graph, blocked, roots, fresh, queue);
    assert forall|s: u64| covered(marks, queue, s) implies covered(marked, next, s) by {
        if s != 0 && !marks.contains(s) {
            let k = choose|k: int| 0 <= k < queue.len() && queue[k] == s;
            if k > 0 {
                assert(next[k - 1] == s);
            }
        }
    }
    assert forall|i: int| 0 <= i < next.len() implies justified(
        graph,
        blocked,
        roots,
        #[trigger] next[i],
    ) by {
        if i < rest.len() {
            assert(next[i] == queue[i + 1]);
        } else {
            let child = found[i - rest.len()];
            assert(next[i] == child);
            if child != 0 && !blocked.contains(child) {
                lemma_child_reached(graph, blocked, roots, head, child);
            }
        }
    }
    assert forall|o: u64, i: int| grown.contains(o) && 0 <= i < children(graph, o).len() implies covered(
        marked,
        next,
        #[trigger] children(graph, o)[i],
    ) by {
        if o == head {
            assert(next[rest.len() + i] == found[i]);
        } else {
            assert(covered(marks, queue, children(graph, o)[i]));
        }
    }
    assert forall|i: int| 0 <= i < roots.len() implies covered(marked, next, #[trigger] roots[i]) by {
        assert(covered(marks, queue, roots[i]));
    }
}

/// When the queue is empty, every object at the end of a path is marked
/// by the closure.
proof fn lemma_frontier_holds_paths(
    graph: ImageView,
    blocked: Set<u64>,
    roots: Seq<u64>,
    fresh: Set<u64>,
    path: Seq<u64>,
)
    requires
        frontier(graph, blocked, roots, fresh, Seq::empty()),
        is_path(graph, blocked, roots, path),
    ensures
        fresh.contains(path.last()),
    decreases path.len(),
{
    let marks = blocked.union(fresh);
    let empty = Seq::<u64>::empty();
    if path.len() == 1 {
        let k = choose|k: int| 0 <= k < roots.len() && roots[k] == path[0];
        assert(covered(marks, empty, roots[k]));
    } else {
        let shorter = path.drop_last();
        assert forall|i: int| 0 <= i < shorter.len() - 1 implies scannable(
            graph,
            #[trigger] shorter[i],
        ) && children(graph, shorter[i]).contains(shorter[i + 1]) by {
            assert(shorter[i] == path[i]);
            assert(shorter[i + 1] == path[i + 1]);
        }
        assert forall|i: int| 0 <= i < shorter.len() implies #[trigger] shorter[i] != 0
            && !blocked.contains(shorter[i]) by {
            assert(shorter[i] == path[i]);
        }
        assert(shorter[0] == path[0]);
        lemma_frontier_holds_paths(graph, blocked, roots, fresh, shorter);
        let before = path[path.len() - 2];
        assert(shorter.last() == before);
        assert(children(graph, before).contains(path[path.len() - 2 + 1]));
        let k = choose|k: int|
            0 <= k < children(graph, before).len() && children(graph, before)[k] == path.last();
        assert(covered(marks, empty, children(graph, before)[k]));
    }
}

/// Scanning does not depend on which objects are marked.
proof fn lemma_marks_apart(a: ImageView, b: ImageView, object: u64)
    requires
        a.ranges == b.ranges,
        a.words == b.words,
        a.shapes == b.shapes,
        a.tibs == b.tibs,
    ensures
        scannable(a, object) == scannable(b, object),
        children(a, object) == children(b, object),
        slots_of(a, object) == slots_of(b, object),
{
    assert(slots_of(a, object) =~= slots_of(b, object));
    assert forall|address: int| a.readable(address) == b.readable(address) by {
        if a.readable(address) {
            let i = choose|i: int|
                0 <= i < a.ranges.len() && crate::image::holds_word(
                    #[trigger] a.ranges[i],
                    address,
                );
            assert(crate::image::holds_word(b.ranges[i], address));
        }
        if b.readable(address) {
            let i = choose|i: int|
                0 <= i < b.ranges.len() && crate::image::holds_word(
                    #[trigger] b.ranges[i],
                    address,
                );
            assert(crate::image::holds_word(a.ranges[i], address));
        }
    }
    assert(children(a, object) =~= children(b, object));
    if scannable(a, object) {
        assert forall|i: int| 0 <= i < slots_of(b, object).len() implies b.readable(
            #[trigger] slots_of(b, object)[i],
        ) by {
            assert(a.readable(slots_of(a, object)[i]));
        }
    }
    if scannable(b, object) {
        assert forall|i: int| 0 <= i < slots_of(a, object).len() implies a.readable(
            #[trigger] slots_of(a, object)[i],
        ) by {
            assert(b.readable(slots_of(b, object)[i]));
        }
    }
}

/// The offsets of the first blocks of a list come first among the
/// offsets of the list.
proof fn lemma_expand_prefix(blocks: Seq<OopMapBlock>, n: int)
    requires
        0 <= n <= blocks.len(),
    ensures
        expand(blocks.take(n)).len() <= expand(blocks).len(),
        expand(blocks.take(n)) == expand(blocks).take(expand(blocks.take(n)).len() as int),
    decreases blocks.len() - n,
{
    if n == blocks.len() {
        assert(blocks.take(n) =~= blocks);
        assert(expand(blocks).take(expand(blocks).len() as int) =~= expand(blocks));
    } else {
        lemma_expand_prefix(blocks, n + 1);
        assert(blocks.take(n + 1).drop_last() =~= blocks.take(n));
        let longer = expand(blocks.take(n + 1));
        assert(expand(blocks.take(n)) =~= longer.take(expand(blocks.take(n)).len() as int));
        assert(expand(blocks.take(n)) =~= expand(blocks).take(
            expand(blocks.take(n)).len() as int,
        ));
    }
}

impl HeapImage {
    /// Marks the object at `o` unless it is marked. Returns whether it
    /// was marked now. A null reference is passed over; an object without
    /// a header has no type-info block, which is a fault.
    pub fn trace_object(&mut self, o: u64) -> (r: Result<bool, ReplayError>)
        ensures
            o == 0 ==> r == Ok::<bool, ReplayError>(false),
            o != 0 && !old(self)@.shapes.contains_key(o) ==> r == Err::<bool, ReplayError>(
                ReplayError::NullTib { object: o },
            ),
            o != 0 && old(self)@.shapes.contains_key(o) ==> r == Ok::<bool, ReplayError>(
                !old(self)@.marks.contains(o),
            ),
            r == Ok::<bool, ReplayError>(true) ==> final(self)@ == (ImageView {
                marks: old(self)@.marks.insert(o),
                ..old(self)@
            }),
            r != Ok::<bool, ReplayError>(true) ==> final(self)@ == old(self)@,
    {
        if o == 0 {
            // skip null
            return Ok(false);
        }
        match self.header(o) {
            None => Err(ReplayError::NullTib { object: o }),
            Some(header) => {
                // Return false if already marked
                if header.mark != 0 {
                    Ok(false)
                } else {
                    self.set_mark(o);
                    Ok(true)
                }
            },
        }
    }

    /// Reads the reference fields of the object at `o` and adds what they
    /// hold to the queue, in order. An object without a header or without
    /// a type-info block is a fault, and so is a field outside the mapped
    /// ranges.
    #[verifier::loop_isolation(false)]
    pub fn scan_object(&self, o: u64, mark_queue: &mut VecDeque<u64>) -> (r: Result<
        (),
        ReplayError,
    >)
        ensures
            r is Ok <==> scannable(self@, o),
            r is Ok ==> final(mark_queue)@ == old(mark_queue)@ + children(self@, o),
            r is Err ==> if self@.shapes.contains_key(o) && self@.tibs.contains_key(
                self@.shapes[o].tib,
            ) {
                r->Err_0 is BadAddress
            } else {
                r->Err_0 == (ReplayError::NullTib { object: o })
            },
    {
        let header = match self.header(o) {
            Some(header) => header,
            None => {
                return Err(ReplayError::NullTib { object: o });
            },
        };
        let tib = match self.tib(header.tib) {
            Some(tib) => tib,
            None => {
                return Err(ReplayError::NullTib { object: o });
            },
        };
        let ghost slots = slots_of(self@, o);
        let ghost found = children(self@, o);
        let ghost queued = mark_queue@;
        assert(queued + found.take(0) =~= queued);
        if tib.is_objarray {
            let mut i: u64 = 0;
            while i < header.length
                invariant
                    i <= header.length,
                    slots == slots_of(self@, o),
                    found == children(self@, o),
                    slots.len() == header.length,
                    forall|j: int| 0 <= j < slots.len() ==> slots[j] == o + 24 + 8 * j,
                    mark_queue@ == queued + found.take(i as int),
                    forall|j: int| 0 <= j < i ==> self@.readable(#[trigger] slots[j]),
                decreases header.length - i,
            {
                let slot = match i.checked_mul(8) {
                    Some(distance) => match distance.checked_add(24) {
                        Some(distance) => o.checked_add(distance),
                        None => None,
                    },
                    None => None,
                };
                let address = match slot {
                    Some(address) => address,
                    None => {
                        assert(!self@.readable(slots[i as int]));
                        return Err(ReplayError::BadAddress { address: o });
                    },
                };
                if !self.is_readable(address) {
                    assert(!self@.readable(slots[i as int]));
                    return Err(ReplayError::BadAddress { address });
                }
                mark_queue.push_back(self.read(address));
                assert(found.take(i + 1) =~= found.take(i as int).push(found[i as int]));
                i += 1;
            }
            assert(found.take(i as int) =~= found);
            Ok(())
        } else {
            let ghost blocks = tib@.oop_map_blocks;
            let ghost offsets = expand(blocks);
            let ghost mut done: int = 0;
            let mut b: usize = 0;
            assert(expand(blocks.take(0)) =~= Seq::<int>::empty());
            while b < tib.oop_map_blocks.len()
                invariant
                    b <= tib.oop_map_blocks.len(),
                    blocks == tib@.oop_map_blocks,
                    offsets == expand(blocks),
                    slots == slots_of(self@, o),
                    found == children(self@, o),
                    slots.len() == offsets.len(),
                    forall|j: int| 0 <= j < slots.len() ==> slots[j] == address_at(o, offsets[j]),
                    done == expand(blocks.take(b as int)).len(),
                    done <= offsets.len(),
                    mark_queue@ == queued + found.take(done),
                    forall|j: int| 0 <= j < done ==> self@.readable(#[trigger] slots[j]),
                decreases tib.oop_map_blocks.len() - b,
            {
                let block = tib.oop_map_blocks[b];
                proof {
                    lemma_expand_prefix(blocks, b + 1);
                    assert(blocks.take(b + 1).drop_last() =~= blocks.take(b as int));
                    assert(blocks.take(b + 1).last() == block);
                    assert(expand(blocks.take(b + 1)) == expand(blocks.take(b as int))
                        + expand_block(block));
                    assert forall|j: int| 0 <= j < block.count implies offsets[done + j]
                        == #[trigger] expand_block(block)[j] by {
                        assert(expand(blocks.take(b + 1))[done + j] == expand_block(block)[j]);
                        assert(offsets.take(expand(blocks.take(b + 1)).len() as int)[done + j]
                            == offsets[done + j]);
                    }
                }
                let ghost run = expand_block(block);
                let mut slot = o.wrapping_add(block.offset);
                let mut j: u64 = 0;
                while j < block.count
                    invariant
                        j <= block.count,
                        slots == slots_of(self@, o),
                        found == children(self@, o),
                        slots.len() == offsets.len(),
                        forall|k: int|
                            0 <= k < slots.len() ==> slots[k] == address_at(o, offsets[k]),
                        0 <= done,
                        done + block.count <= offsets.len(),
                        run == expand_block(block),
                        forall|k: int| 0 <= k < block.count ==> offsets[done + k] == #[trigger] run[k],
                        slot == address_at(o, block.offset + 8 * j),
                        mark_queue@ == queued + found.take(done + j),
                        forall|k: int| 0 <= k < done + j ==> self@.readable(#[trigger] slots[k]),
                    decreases block.count - j,
                {
                    assert(run[j as int] == block.offset + 8 * j);
                    assert(slots[done + j] == slot);
                    if !self.is_readable(slot) {
                        return Err(ReplayError::BadAddress { address: slot });
                    }
                    mark_queue.push_back(self.read(slot));
                    assert(found.take(done + j + 1) =~= found.take(done + j).push(
                        found[done + j],
                    ));
                    slot = slot.wrapping_add(8);
                    j += 1;
                }
                proof {
                    done = done + block.count;
                }
                b += 1;
            }
            assert(blocks.take(b as int) =~= blocks);
            assert(found.take(done) =~= found);
            Ok(())
        }
    }

    /// Marks every object that can be reached from `roots` through
    /// reference fields and was not marked before, and returns how many
    /// it marked. It fails exactly where an object that can be reached
    /// cannot be scanned: the fault then names such an object that has no
    /// type-info block, or a field outside the mapped ranges.
    #[verifier::loop_isolation(false)]
    pub fn transitive_closure(&mut self, roots: &[RootEdge]) -> (r: Result<u64, ReplayError>)
        ensures
            final(self)@ == (ImageView { marks: final(self)@.marks, ..old(self)@ }),
            match r {
                Ok(count) => {
                    let found = Set::new(
                        |o: u64| reached(old(self)@, old(self)@.marks, root_targets(roots@), o),
                    );
                    &&& found.finite()
                    &&& count == found.len()
                    &&& final(self)@.marks == old(self)@.marks.union(found)
                    &&& forall|o: u64| found.contains(o) ==> scannable(old(self)@, o)
                },
                Err(e) => exists|o: u64|
                    reached(old(self)@, old(self)@.marks, root_targets(roots@), o) && !scannable(
                        old(self)@,
                        o,
                    ) && (e == (ReplayError::NullTib { object: o }) || e is BadAddress),
            },
    {
        let ghost graph = self@;
        let ghost blocked = graph.marks;
        let ghost targets = root_targets(roots@);
        // A queue of objref (possibly null)
        // aka node enqueuing
        let mut mark_queue: VecDeque<u64> = VecDeque::new();
        let mut i: usize = 0;
        while i < roots.len()
            invariant
                i <= roots.len(),
                targets == root_targets(roots@),
                mark_queue@ == targets.take(i as int),
            decreases roots.len() - i,
        {
            mark_queue.push_back(roots[i].objref);
            assert(targets.take(i + 1) =~= targets.take(i as int).push(targets[i as int]));
            i += 1;
        }
        assert(targets.take(i as int) =~= targets);
        let mut marked_object: u64 = 0;
        let ghost mut fresh: Set<u64> = Set::empty();
        proof {
            lemma_frontier_begins(graph, blocked, targets);
            self.lemma_objects();
            assert(blocked.union(fresh) =~= blocked);
        }
        while mark_queue.len() > 0
            invariant
                self@ == (ImageView { marks: blocked.union(fresh), ..graph }),
                graph.marks == blocked,
                graph == old(self)@,
                targets == root_targets(roots@),
                frontier(graph, blocked, targets, fresh, mark_queue@),
                fresh.finite(),
                marked_object == fresh.len(),
                forall|o: u64| fresh.contains(o) ==> graph.shapes.contains_key(o),
            decreases graph.shapes.dom().difference(blocked.union(fresh)).len(), mark_queue@.len(),
        {
            let ghost queue = mark_queue@;
            let ghost marks = blocked.union(fresh);
            let ghost pending = graph.shapes.dom().difference(marks);
            let o = match mark_queue.pop_front() {
                Some(o) => o,
                None => 0,
            };
            assert(o == queue[0]);
            assert(mark_queue@ =~= queue.drop_first());
            proof {
                self.lemma_objects();
            }
            let newly = match self.trace_object(o) {
                Ok(newly) => newly,
                Err(e) => {
                    proof {
                        assert(blocked.contains(o) ==> marks.contains(o));
                        lemma_frontier_head(graph, blocked, targets, fresh, queue);
                        assert(!scannable(graph, o));
                    }
                    return Err(e);
                },
            };
            if newly {
                // not previously marked, now marked
                // now scan
                proof {
                    assert(blocked.contains(o) ==> marks.contains(o));
                    lemma_frontier_head(graph, blocked, targets, fresh, queue);
                    lemma_marks_apart(self@, graph, o);
                }
                match self.scan_object(o, &mut mark_queue) {
                    Ok(()) => {},
                    Err(e) => {
                        return Err(e);
                    },
                }
                proof {
                    lemma_frontier_visits(graph, blocked, targets, fresh, queue);
                    let grown = fresh.insert(o);
                    assert(blocked.union(grown) =~= marks.insert(o));
                    assert(graph.shapes.dom().difference(blocked.union(grown)) =~= pending.remove(o));
                    assert(pending.contains(o));
                    assert(pending.finite());
                    vstd::set_lib::lemma_len_subset(grown, graph.shapes.dom());
                    fresh = grown;
                }
                marked_object += 1;
            } else {
                proof {
                    lemma_frontier_skips(graph, blocked, targets, fresh, queue);
                }
            }
        }
        proof {
            let found = Set::new(|o: u64| reached(graph, blocked, targets, o));
            assert(mark_queue@ =~= Seq::<u64>::empty());
            assert forall|o: u64| found.contains(o) implies fresh.contains(o) by {
                let path = choose|path: Seq<u64>|
                    is_path(graph, blocked, targets, path) && path.last() == o;
                lemma_frontier_holds_paths(graph, blocked, targets, fresh, path);
            }
            assert(found =~= fresh);
        }
        Ok(marked_object)
    }
}

/// What replaying a capture found.
#[derive(Clone, Copy, Debug, PartialEq, Eq)]
pub struct ReplayReport {
    /// How many objects the capture holds.
    pub objects: usize,
    /// How many objects the closure marked.
    pub marked: u64,
}

/// Replays a capture: rebuilds its heap and marks what its roots reach.
pub fn replay(dump: &HeapDump) -> (r: Result<ReplayReport, ReplayError>)
    ensures
        match rebuilt(dump@) {
            Err(e) => r == Err::<ReplayReport, ReplayError>(e),
            Ok(image) => match r {
                Ok(report) => {
                    let found = Set::new(
                        |o: u64| reached(image, image.marks, root_targets(dump@.roots), o),
                    );
                    &&& report.objects == dump@.objects.len()
                    &&& found.finite()
                    &&& report.marked == found.len()
                    &&& forall|o: u64| found.contains(o) ==> scannable(image, o)
                },
                Err(e) => exists|o: u64|
                    reached(image, image.marks, root_targets(dump@.roots), o) && !scannable(
                        image,
                        o,
                    ) && (e == (ReplayError::NullTib { object: o }) || e is BadAddress),
            },
        },
{
    let mut image = match HeapImage::reconstruct(dump) {
        Ok(image) => image,
        Err(e) => {
            return Err(e);
        },
    };
    let marked = match image.transitive_closure(dump.roots.as_slice()) {
        Ok(marked) => marked,
        Err(e) => {
            return Err(e);
        },
    };
    Ok(ReplayReport { objects: dump.objects.len(), marked })
}

} // verus!
