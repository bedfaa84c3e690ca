//! What holds of a sanity pass as a whole: an object is marked and
//! captured once, and the capture of a finished pass leaves out nothing
//! that its roots reach.

use crate::heapdump::HeapDumpView;
use crate::process_edges::{admission, newly_marked};
use crate::sanity_checker::{LedgerView, SanityError};
use vstd::prelude::*;

verus! {

/// Tracing an object a second time in a pass does not mark it again: once
/// it is marked, no answer of the host makes tracing it mark it, and none
/// makes it an invalid reference.
pub proof fn lemma_marked_once(
    s: LedgerView,
    object: u64,
    sane: bool,
    valid_bit: Option<bool>,
    in_harness: bool,
)
    requires
        object != 0,
    ensures
        !newly_marked(s.mark(object), object),
        admission(s.mark(object), object, sane, valid_bit, in_harness) == (if valid_bit == Some(
            false,
        ) {
            Err::<bool, SanityError>(SanityError::ValidBitNotSet { object })
        } else {
            Ok(false)
        }),
{
}

/// A ledger whose capture has one record at most for an object, and none
/// for an object that is not marked, stays so when a pass advances.
pub proof fn lemma_advance_keeps_consistent(
    before: LedgerView,
    after: LedgerView,
    marked: Seq<u64>,
    in_harness: bool,
)
    requires
        before.consistent(),
        before.advanced_to(after, marked, in_harness),
    ensures
        after.consistent(),
{
    let old_records = before.capture.objects;
    let records = after.capture.objects;
    let n = old_records.len() as int;
    if in_harness && marked.len() > 0 {
        assert forall|i: int| 0 <= i < records.len() implies after.visited.contains(
            (#[trigger] records[i]).start,
        ) by {
            if i < n {
                assert(records.take(n)[i] == records[i]);
                assert(before.visited.contains(old_records[i].start));
            } else {
                assert(records[n + (i - n)].start == marked[i - n]);
                assert(marked.contains(marked[i - n]));
            }
        }
        assert forall|i: int, j: int| 0 <= i < j < records.len() implies (
        #[trigger] records[i]).start != (#[trigger] records[j]).start by {
            if j < n {
                assert(records.take(n)[i] == records[i]);
                assert(records.take(n)[j] == records[j]);
            } else {
                assert(records[n + (j - n)].start == marked[j - n]);
                if i < n {
                    assert(records.take(n)[i] == records[i]);
                    assert(before.visited.contains(old_records[i].start));
                } else {
                    assert(records[n + (i - n)].start == marked[i - n]);
                }
            }
        }
    }
}

/// In a profiled pass, a ledger in which every marked object has a record
/// stays so when the pass advances.
pub proof fn lemma_advance_keeps_complete(before: LedgerView, after: LedgerView, marked: Seq<u64>)
    requires
        before.complete(),
        before.advanced_to(after, marked, true),
    ensures
        after.complete(),
{
    let old_records = before.capture.objects;
    let records = after.capture.objects;
    let n = old_records.len() as int;
    assert forall|o: u64| after.visited.contains(o) implies after.capture.has_record(o) by {
        if marked.len() == 0 {
            assert(!marked.contains(o));
        } else if before.visited.contains(o) {
            let i = choose|i: int| 0 <= i < old_records.len() && #[trigger] old_records[i].start == o;
            assert(records.take(n)[i] == records[i]);
            assert(records[i].start == o);
        } else {
            let k = choose|k: int| 0 <= k < marked.len() && marked[k] == o;
            assert(records[n + k].start == o);
        }
    }
}

/// A pass that begins with an empty capture begins with a ledger that is
/// consistent and complete.
pub proof fn lemma_pass_begins_sound(s: LedgerView)
    requires
        s.visited == Set::<u64>::empty(),
        s.capture.objects.len() == 0,
    ensures
        s.consistent(),
        s.complete(),
{
}

/// Whether `path` leads from a root of the capture through references
/// that the capture records, over objects that are not null.
pub open spec fn capture_path(dump: HeapDumpView, path: Seq<u64>) -> bool {
    &&& path.len() > 0
    &&& exists|r: int| 0 <= r < dump.roots.len() && (#[trigger] dump.roots[r]).objref == path[0]
    &&& forall|i: int| 0 <= i < path.len() ==> #[trigger] path[i] != 0
    &&& forall|i: int|
        #![trigger path[i]]
        0 <= i < path.len() - 1 ==> exists|k: int, j: int|
            0 <= k < dump.objects.len() && 0 <= j < dump.objects[k].edges.len()
                && dump.objects[k].start == path[i] && (
            #[trigger] dump.objects[k].edges[j]).objref == path[i + 1]
}

/// Whether the roots of the capture reach `object`.
pub open spec fn capture_reaches(dump: HeapDumpView, object: u64) -> bool {
    exists|path: Seq<u64>| capture_path(dump, path) && path.last() == object
}

/// Whether the capture is closed: what a root or a recorded reference
/// refers to is null or has a record.
pub open spec fn capture_closed(dump: HeapDumpView) -> bool {
    &&& forall|r: int|
        0 <= r < dump.roots.len() ==> (#[trigger] dump.roots[r]).objref == 0 || dump.has_record(
            dump.roots[r].objref,
        )
    &&& forall|k: int, j: int|
        0 <= k < dump.objects.len() && 0 <= j < dump.objects[k].edges.len() ==> (
        #[trigger] dump.objects[k].edges[j]).objref == 0 || dump.has_record(
            dump.objects[k].edges[j].objref,
        )
}

/// In a closed capture, every object at the end of a path has a record.
proof fn lemma_closed_capture_holds_paths(dump: HeapDumpView, path: Seq<u64>)
    requires
        capture_closed(dump),
        capture_path(dump, path),
    ensures
        dump.has_record(path.last()),
{
    if path.len() == 1 {
        let r = choose|r: int| 0 <= r < dump.roots.len() && (#[trigger] dump.roots[r]).objref == path[0];
        assert(dump.roots[r].objref != 0);
    } else {
        let at = path.len() - 2;
        assert(path[at] != 0);
        let (k, j) = choose|k: int, j: int|
            0 <= k < dump.objects.len() && 0 <= j < dump.objects[k].edges.len()
                && dump.objects[k].start == path[at] && (
            #[trigger] dump.objects[k].edges[j]).objref == path[at + 1];
        assert(path[at + 1] != 0);
        assert(dump.objects[k].edges[j].objref == path.last());
    }
}

/// A closed capture leaves out nothing that its roots reach.
pub proof fn lemma_closed_capture_is_exhaustive(dump: HeapDumpView, object: u64)
    requires
        capture_closed(dump),
        capture_reaches(dump, object),
    ensures
        dump.has_record(object),
{
    let path = choose|path: Seq<u64>| capture_path(dump, path) && path.last() == object;
    lemma_closed_capture_holds_paths(dump, path);
}

/// The capture of a finished profiled pass is exhaustive. When every
/// marked object has a record, and what the roots and the recorded
/// references refer to was traced, so that it is null or marked, then
/// every target in the capture is null or has a record, and so does every
/// object that the roots reach.
pub proof fn lemma_finished_pass_is_exhaustive(s: LedgerView, object: u64)
    requires
        s.complete(),
        forall|r: int|
            0 <= r < s.capture.roots.len() ==> (#[trigger] s.capture.roots[r]).objref == 0
                || s.visited.contains(s.capture.roots[r].objref),
        forall|k: int, j: int|
            0 <= k < s.capture.objects.len() && 0 <= j < s.capture.objects[k].edges.len() ==> (
            #[trigger] s.capture.objects[k].edges[j]).objref == 0 || s.visited.contains(
                s.capture.objects[k].edges[j].objref,
            ),
    ensures
        capture_closed(s.capture),
        capture_reaches(s.capture, object) ==> s.capture.has_record(object),
{
    assert(capture_closed(s.capture));
    if capture_reaches(s.capture, object) {
        lemma_closed_capture_is_exhaustive(s.capture, object);
    }
}

} // verus!
