//! The stored form of a capture. A capture is a message of three repeated
//! fields: its object records, its roots and its spaces, in that order.
//! Each of them is a message of its own. An integer that is zero and a name
//! that is empty are left out; an integer that may be absent is written
//! whenever it is present.

use crate::heapdump::{HeapDumpView, HeapObjectView, NormalEdge, RootEdge, SpaceView};
use crate::wire::{
    fields_bytes, fields_parse, fields_valid, lemma_fields_parse_sound,
    lemma_fields_parse_written, FieldView,
};
use vstd::prelude::*;
use vstd::utf8::{decode_utf8, encode_utf8, valid_utf8};

verus! {

/// The field of an integer that may be absent: written when present.
pub open spec fn optional_field(number: u32, value: Option<u64>) -> Seq<FieldView> {
    match value {
        Some(value) => seq![FieldView::Varint { number, value }],
        None => Seq::empty(),
    }
}

/// An integer seen as absent where it is zero.
pub open spec fn nonzero(value: u64) -> Option<u64> {
    if value == 0 {
        None
    } else {
        Some(value)
    }
}

/// The field of an integer that is always present in the value: written
/// unless it is zero.
pub open spec fn plain_field(number: u32, value: u64) -> Seq<FieldView> {
    optional_field(number, nonzero(value))
}

/// The integer of the field at `at`, where that field is an integer field
/// with the number `number`.
pub open spec fn varint_at(fields: Seq<FieldView>, at: int, number: u32) -> Option<u64> {
    if 0 <= at < fields.len() {
        match fields[at] {
            FieldView::Varint { number: n, value } => if n == number {
                Some(value)
            } else {
                None
            },
            FieldView::Bytes { .. } => None,
        }
    } else {
        None
    }
}

/// How many fields an integer that was or was not found takes up.
pub open spec fn taken(found: Option<u64>) -> int {
    if found is Some {
        1
    } else {
        0
    }
}

/// The value of an integer field that is left out when it is zero.
pub open spec fn or_zero(found: Option<u64>) -> u64 {
    match found {
        Some(value) => value,
        None => 0,
    }
}

/// Whether `field` holds bytes under the number `number`.
pub open spec fn is_bytes(field: FieldView, number: u32) -> bool {
    match field {
        FieldView::Bytes { number: n, .. } => n == number,
        FieldView::Varint { .. } => false,
    }
}

/// The bytes that `field` holds; none for an integer field.
pub open spec fn payload_of(field: FieldView) -> Seq<u8> {
    match field {
        FieldView::Bytes { payload, .. } => payload,
        FieldView::Varint { .. } => Seq::empty(),
    }
}

/// Whether every integer field among `fields` has a number of at least
/// `least`.
pub open spec fn numbers_from(fields: Seq<FieldView>, least: u32) -> bool {
    forall|i: int|
        0 <= i < fields.len() ==> match #[trigger] fields[i] {
            FieldView::Varint { number, .. } => number >= least,
            FieldView::Bytes { .. } => true,
        }
}

/// An integer field that stands between other fields, or is left out there,
/// is found, or missed, where it belongs, as long as no field after that
/// place has its number.
pub proof fn lemma_integer_found(
    before: Seq<FieldView>,
    number: u32,
    value: Option<u64>,
    after: Seq<FieldView>,
)
    requires
        number < u32::MAX,
        numbers_from(after, (number + 1) as u32),
    ensures
        varint_at(before + (optional_field(number, value) + after), before.len() as int, number)
            == value,
        numbers_from(optional_field(number, value) + after, number),
        (before + optional_field(number, value)).len() == before.len() + taken(value),
{
    let all = before + (optional_field(number, value) + after);
    let at = before.len() as int;
    match value {
        Some(v) => {
            assert(all[at] == FieldView::Varint { number, value: v });
        },
        None => {
            if at < all.len() {
                assert(all[at] == after[0]);
            }
        },
    }
    let rest = optional_field(number, value) + after;
    assert forall|i: int| 0 <= i < rest.len() implies match #[trigger] rest[i] {
        FieldView::Varint { number: n, .. } => n >= number,
        FieldView::Bytes { .. } => true,
    } by {
        if i >= optional_field(number, value).len() {
            assert(rest[i] == after[i - optional_field(number, value).len()]);
        }
    }
}

/// Where the run of fields that hold bytes under `number` and starts at
/// `at` ends.
pub open spec fn run_end(fields: Seq<FieldView>, at: int, number: u32) -> int
    decreases fields.len() - at,
{
    if 0 <= at < fields.len() && is_bytes(fields[at], number) {
        run_end(fields, at + 1, number)
    } else {
        at
    }
}

/// A run ends where the first field that does not belong to it stands.
pub proof fn lemma_run_end(fields: Seq<FieldView>, at: int, number: u32, end: int)
    requires
        0 <= at <= end <= fields.len(),
        forall|i: int| at <= i < end ==> is_bytes(#[trigger] fields[i], number),
        end < fields.len() ==> !is_bytes(fields[end], number),
    ensures
        run_end(fields, at, number) == end,
    decreases end - at,
{
    if at < end {
        lemma_run_end(fields, at + 1, number, end);
    }
}

/// A run holds nothing but fields with bytes under its number, and the
/// field after it, if there is one, is another.
pub proof fn lemma_run_holds(fields: Seq<FieldView>, at: int, number: u32)
    requires
        0 <= at <= fields.len(),
    ensures
        at <= run_end(fields, at, number) <= fields.len(),
        forall|i: int|
            at <= i < run_end(fields, at, number) ==> is_bytes(#[trigger] fields[i], number),
        run_end(fields, at, number) < fields.len() ==> !is_bytes(
            fields[run_end(fields, at, number)],
            number,
        ),
    decreases fields.len() - at,
{
    if at < fields.len() && is_bytes(fields[at], number) {
        lemma_run_holds(fields, at + 1, number);
    }
}

/// The fields of a reference held in an object.
pub open spec fn edge_fields(edge: NormalEdge) -> Seq<FieldView> {
    plain_field(1, edge.slot) + plain_field(2, edge.objref)
}

/// The stored form of a reference held in an object.
pub open spec fn edge_bytes(edge: NormalEdge) -> Seq<u8> {
    fields_bytes(edge_fields(edge))
}

/// The reference that `fields` are the fields of.
pub open spec fn edge_of_fields(fields: Seq<FieldView>) -> Option<NormalEdge> {
    let slot = varint_at(fields, 0, 1);
    let objref = varint_at(fields, taken(slot), 2);
    if taken(slot) + taken(objref) == fields.len() && slot != Some(0u64) && objref != Some(0u64) {
        Some(NormalEdge { slot: or_zero(slot), objref: or_zero(objref) })
    } else {
        None
    }
}

/// The reference that `bytes` are the stored form of.
pub open spec fn edge_decode(bytes: Seq<u8>) -> Option<NormalEdge> {
    match fields_parse(bytes) {
        Some(fields) => edge_of_fields(fields),
        None => None,
    }
}

/// The fields of a root.
pub open spec fn root_fields(root: RootEdge) -> Seq<FieldView> {
    plain_field(1, root.objref)
}

/// The stored form of a root.
pub open spec fn root_bytes(root: RootEdge) -> Seq<u8> {
    fields_bytes(root_fields(root))
}

/// The root that `fields` are the fields of.
pub open spec fn root_of_fields(fields: Seq<FieldView>) -> Option<RootEdge> {
    let objref = varint_at(fields, 0, 1);
    if taken(objref) == fields.len() && objref != Some(0u64) {
        Some(RootEdge { objref: or_zero(objref) })
    } else {
        None
    }
}

/// The root that `bytes` are the stored form of.
pub open spec fn root_decode(bytes: Seq<u8>) -> Option<RootEdge> {
    match fields_parse(bytes) {
        Some(fields) => root_of_fields(fields),
        None => None,
    }
}

/// The field of a name: its UTF-8 bytes, unless there are none.
pub open spec fn name_field(number: u32, name: Seq<char>) -> Seq<FieldView> {
    if encode_utf8(name).len() == 0 {
        Seq::empty()
    } else {
        seq![FieldView::Bytes { number, payload: encode_utf8(name) }]
    }
}

/// The fields of a space.
pub open spec fn space_fields(space: SpaceView) -> Seq<FieldView> {
    name_field(1, space.name) + plain_field(2, space.start) + plain_field(3, space.end)
}

/// The stored form of a space.
pub open spec fn space_bytes(space: SpaceView) -> Seq<u8> {
    fields_bytes(space_fields(space))
}

/// The space that `fields` are the fields of.
#[verifier::opaque]
pub open spec fn space_of_fields(fields: Seq<FieldView>) -> Option<SpaceView> {
    let named = fields.len() > 0 && is_bytes(fields[0], 1);
    let first: int = if named {
        1
    } else {
        0
    };
    let start = varint_at(fields, first, 2);
    let end = varint_at(fields, first + taken(start), 3);
    if first + taken(start) + taken(end) == fields.len() && start != Some(0u64) && end != Some(
        0u64,
    ) && (named ==> payload_of(fields[0]).len() > 0 && valid_utf8(payload_of(fields[0]))) {
        Some(
            SpaceView {
                name: if named {
                    decode_utf8(payload_of(fields[0]))
                } else {
                    Seq::empty()
                },
                start: or_zero(start),
                end: or_zero(end),
            },
        )
    } else {
        None
    }
}

/// The space that `bytes` are the stored form of.
pub open spec fn space_decode(bytes: Seq<u8>) -> Option<SpaceView> {
    match fields_parse(bytes) {
        Some(fields) => space_of_fields(fields),
        None => None,
    }
}

/// The fields of an object record that come before its edges.
pub open spec fn object_head(object: HeapObjectView) -> Seq<FieldView> {
    plain_field(1, object.start) + plain_field(2, object.klass) + plain_field(3, object.size)
        + optional_field(4, object.objarray_length) + optional_field(
        5,
        object.instance_mirror_start,
    ) + optional_field(6, object.instance_mirror_count)
}

/// The fields of the edges of an object record, one each.
pub open spec fn edge_run(edges: Seq<NormalEdge>) -> Seq<FieldView> {
    Seq::new(edges.len(), |i: int| FieldView::Bytes { number: 7, payload: edge_bytes(edges[i]) })
}

/// The fields of an object record.
pub open spec fn object_fields(object: HeapObjectView) -> Seq<FieldView> {
    object_head(object) + edge_run(object.edges)
}

/// The stored form of an object record.
pub open spec fn object_bytes(object: HeapObjectView) -> Seq<u8> {
    fields_bytes(object_fields(object))
}

/// Where the fields of the edges start among the fields of an object
/// record.
pub open spec fn object_head_len(fields: Seq<FieldView>) -> int {
    let start = varint_at(fields, 0, 1);
    let a = taken(start);
    let klass = varint_at(fields, a, 2);
    let b = a + taken(klass);
    let size = varint_at(fields, b, 3);
    let c = b + taken(size);
    let length = varint_at(fields, c, 4);
    let d = c + taken(length);
    let mirror_start = varint_at(fields, d, 5);
    let e = d + taken(mirror_start);
    let mirror_count = varint_at(fields, e, 6);
    e + taken(mirror_count)
}

/// Whether every field from `from` on holds the stored form of an edge.
pub open spec fn edges_from(fields: Seq<FieldView>, from: int) -> bool {
    forall|i: int|
        from <= i < fields.len() ==> is_bytes(#[trigger] fields[i], 7) && edge_decode(
            payload_of(fields[i]),
        ) is Some
}

/// The object record that `fields` are the fields of.
#[verifier::opaque]
pub open spec fn object_of_fields(fields: Seq<FieldView>) -> Option<HeapObjectView> {
    let start = varint_at(fields, 0, 1);
    let a = taken(start);
    let klass = varint_at(fields, a, 2);
    let b = a + taken(klass);
    let size = varint_at(fields, b, 3);
    let c = b + taken(size);
    let length = varint_at(fields, c, 4);
    let d = c + taken(length);
    let mirror_start = varint_at(fields, d, 5);
    let e = d + taken(mirror_start);
    let mirror_count = varint_at(fields, e, 6);
    let f = object_head_len(fields);
    if start != Some(0u64) && klass != Some(0u64) && size != Some(0u64) && edges_from(fields, f) {
        Some(
            HeapObjectView {
                start: or_zero(start),
                klass: or_zero(klass),
                size: or_zero(size),
                objarray_length: length,
                instance_mirror_start: mirror_start,
                instance_mirror_count: mirror_count,
                edges: Seq::new(
                    (fields.len() - f) as nat,
                    |i: int| edge_decode(payload_of(fields[f + i]))->0,
                ),
            },
        )
    } else {
        None
    }
}

/// The object record that `bytes` are the stored form of.
pub open spec fn object_decode(bytes: Seq<u8>) -> Option<HeapObjectView> {
    match fields_parse(bytes) {
        Some(fields) => object_of_fields(fields),
        None => None,
    }
}

/// The fields of a capture.
pub open spec fn dump_fields(dump: HeapDumpView) -> Seq<FieldView> {
    Seq::new(
        dump.objects.len(),
        |i: int| FieldView::Bytes { number: 1, payload: object_bytes(dump.objects[i]) },
    ) + Seq::new(
        dump.roots.len(),
        |i: int| FieldView::Bytes { number: 2, payload: root_bytes(dump.roots[i]) },
    ) + Seq::new(
        dump.spaces.len(),
        |i: int| FieldView::Bytes { number: 3, payload: space_bytes(dump.spaces[i]) },
    )
}

/// The stored form of a capture, before compression.
pub open spec fn dump_bytes(dump: HeapDumpView) -> Seq<u8> {
    fields_bytes(dump_fields(dump))
}

/// The capture that `fields` are the fields of.
pub open spec fn dump_of_fields(fields: Seq<FieldView>) -> Option<HeapDumpView> {
    let a = run_end(fields, 0, 1);
    let b = run_end(fields, a, 2);
    let c = run_end(fields, b, 3);
    if c == fields.len() && (forall|i: int|
        0 <= i < a ==> object_decode(payload_of(#[trigger] fields[i])) is Some) && (forall|i: int|
        a <= i < b ==> root_decode(payload_of(#[trigger] fields[i])) is Some) && (forall|i: int|
        b <= i < c ==> space_decode(payload_of(#[trigger] fields[i])) is Some) {
        Some(
            HeapDumpView {
                objects: Seq::new(a as nat, |i: int| object_decode(payload_of(fields[i]))->0),
                roots: Seq::new((b - a) as nat, |i: int| root_decode(payload_of(fields[a + i]))->0),
                spaces: Seq::new(
                    (c - b) as nat,
                    |i: int| space_decode(payload_of(fields[b + i]))->0,
                ),
            },
        )
    } else {
        None
    }
}

/// The capture that `bytes` are the stored form of, before compression.
pub open spec fn dump_decode(bytes: Seq<u8>) -> Option<HeapDumpView> {
    match fields_parse(bytes) {
        Some(fields) => dump_of_fields(fields),
        None => None,
    }
}

/// Whether the object record can be stored: the stored form of each part
/// has a length that fits 64 bits.
pub open spec fn object_storable(object: HeapObjectView) -> bool {
    forall|i: int| 0 <= i < object.edges.len() ==> edge_bytes(#[trigger] object.edges[i]).len()
        <= u64::MAX
}

/// Whether the space can be stored.
pub open spec fn space_storable(space: SpaceView) -> bool {
    encode_utf8(space.name).len() <= u64::MAX
}

/// Whether the capture can be stored: the stored form of each part of it,
/// at every depth, has a length that fits 64 bits.
pub open spec fn dump_storable(dump: HeapDumpView) -> bool {
    &&& forall|i: int|
        0 <= i < dump.objects.len() ==> object_storable(#[trigger] dump.objects[i])
            && object_bytes(dump.objects[i]).len() <= u64::MAX
    &&& forall|i: int|
        0 <= i < dump.roots.len() ==> root_bytes(#[trigger] dump.roots[i]).len() <= u64::MAX
    &&& forall|i: int|
        0 <= i < dump.spaces.len() ==> space_storable(#[trigger] dump.spaces[i]) && space_bytes(
            dump.spaces[i],
        ).len() <= u64::MAX
}

/// A reference that was stored is read back as it was.
pub proof fn lemma_edge_round_trip(edge: NormalEdge)
    ensures
        edge_decode(edge_bytes(edge)) == Some(edge),
{
    lemma_fields_parse_written(edge_fields(edge));
}

/// Bytes that are read as a reference are its stored form.
pub proof fn lemma_edge_sound(bytes: Seq<u8>)
    requires
        edge_decode(bytes) is Some,
    ensures
        edge_bytes(edge_decode(bytes)->0) == bytes,
{
    lemma_fields_parse_sound(bytes);
    assert(edge_fields(edge_decode(bytes)->0) =~= fields_parse(bytes)->0);
}

/// A root that was stored is read back as it was.
pub proof fn lemma_root_round_trip(root: RootEdge)
    ensures
        root_decode(root_bytes(root)) == Some(root),
{
    lemma_fields_parse_written(root_fields(root));
}

/// Bytes that are read as a root are its stored form.
pub proof fn lemma_root_sound(bytes: Seq<u8>)
    requires
        root_decode(bytes) is Some,
    ensures
        root_bytes(root_decode(bytes)->0) == bytes,
{
    lemma_fields_parse_sound(bytes);
    assert(root_fields(root_decode(bytes)->0) =~= fields_parse(bytes)->0);
}

/// A space that was stored is read back as it was.
pub proof fn lemma_space_round_trip(space: SpaceView)
    requires
        space_storable(space),
    ensures
        space_decode(space_bytes(space)) == Some(space),
{
    broadcast use vstd::utf8::encode_utf8_valid_utf8, vstd::utf8::encode_utf8_decode_utf8;

    reveal(space_of_fields);
    let fields = space_fields(space);
    lemma_fields_parse_written(fields);
    let found = space_of_fields(fields)->0;
    if encode_utf8(space.name).len() == 0 {
        assert(encode_utf8(space.name) =~= Seq::<u8>::empty());
        assert(decode_utf8(encode_utf8(space.name)) == space.name);
        assert(decode_utf8(Seq::<u8>::empty()) =~= Seq::<char>::empty());
    }
    assert(found.name == space.name);
}

/// Bytes that are read as a space are its stored form.
pub proof fn lemma_space_sound(bytes: Seq<u8>)
    requires
        space_decode(bytes) is Some,
    ensures
        space_bytes(space_decode(bytes)->0) == bytes,
        space_storable(space_decode(bytes)->0),
{
    broadcast use vstd::utf8::decode_utf8_encode_utf8;

    reveal(space_of_fields);
    lemma_fields_parse_sound(bytes);
    let fields = fields_parse(bytes)->0;
    let space = space_decode(bytes)->0;
    if fields.len() > 0 && is_bytes(fields[0], 1) {
        assert(fields[0].valid());
        assert(encode_utf8(space.name) == payload_of(fields[0]));
    } else {
        assert(encode_utf8(space.name) =~= Seq::<u8>::empty());
    }
    assert(space_fields(space) =~= fields);
}

/// Joining three runs of fields does not depend on which two are joined
/// first.
proof fn lemma_joined_either_way(a: Seq<FieldView>, b: Seq<FieldView>, c: Seq<FieldView>)
    ensures
        (a + b) + c == a + (b + c),
{
    assert((a + b) + c =~= a + (b + c));
}

/// Among the fields of an object record, each integer is found where it
/// belongs, and the fields of the edges start after the last of them.
proof fn lemma_object_head_found(object: HeapObjectView)
    ensures
        ({
            let fields = object_fields(object);
            let a = taken(nonzero(object.start));
            let b = a + taken(nonzero(object.klass));
            let c = b + taken(nonzero(object.size));
            let d = c + taken(object.objarray_length);
            let e = d + taken(object.instance_mirror_start);
            &&& varint_at(fields, 0, 1) == nonzero(object.start)
            &&& varint_at(fields, a, 2) == nonzero(object.klass)
            &&& varint_at(fields, b, 3) == nonzero(object.size)
            &&& varint_at(fields, c, 4) == object.objarray_length
            &&& varint_at(fields, d, 5) == object.instance_mirror_start
            &&& varint_at(fields, e, 6) == object.instance_mirror_count
            &&& object_head(object).len() == e + taken(object.instance_mirror_count)
        }),
{
    let fields = object_fields(object);
    let s1 = optional_field(1, nonzero(object.start));
    let s2 = optional_field(2, nonzero(object.klass));
    let s3 = optional_field(3, nonzero(object.size));
    let s4 = optional_field(4, object.objarray_length);
    let s5 = optional_field(5, object.instance_mirror_start);
    let s6 = optional_field(6, object.instance_mirror_count);
    let r6 = edge_run(object.edges);
    let r5 = s6 + r6;
    let r4 = s5 + r5;
    let r3 = s4 + r4;
    let r2 = s3 + r3;
    let r1 = s2 + r2;
    let upto1 = s1;
    let upto2 = upto1 + s2;
    let upto3 = upto2 + s3;
    let upto4 = upto3 + s4;
    let upto5 = upto4 + s5;
    let upto6 = upto5 + s6;
    assert(object_head(object) == upto6);
    assert(fields == upto6 + r6);
    assert(numbers_from(r6, 7));
    lemma_integer_found(upto5, 6, object.instance_mirror_count, r6);
    lemma_joined_either_way(upto5, s6, r6);
    assert(fields == upto5 + r5);
    lemma_integer_found(upto4, 5, object.instance_mirror_start, r5);
    lemma_joined_either_way(upto4, s5, r5);
    assert(fields == upto4 + r4);
    lemma_integer_found(upto3, 4, object.objarray_length, r4);
    lemma_joined_either_way(upto3, s4, r4);
    assert(fields == upto3 + r3);
    lemma_integer_found(upto2, 3, nonzero(object.size), r3);
    lemma_joined_either_way(upto2, s3, r3);
    assert(fields == upto2 + r2);
    lemma_integer_found(upto1, 2, nonzero(object.klass), r2);
    lemma_joined_either_way(upto1, s2, r2);
    assert(fields == upto1 + r1);
    lemma_integer_found(Seq::empty(), 1, nonzero(object.start), r1);
    assert(Seq::<FieldView>::empty() + (s1 + r1) =~= s1 + r1);
    assert(upto1.len() == taken(nonzero(object.start)));
}

/// An object record that was stored is read back as it was.
pub proof fn lemma_object_round_trip(object: HeapObjectView)
    requires
        object_storable(object),
    ensures
        object_decode(object_bytes(object)) == Some(object),
{
    reveal(object_of_fields);
    let fields = object_fields(object);
    let head = object_head(object);
    lemma_object_head_found(object);
    let f = head.len() as int;
    assert(object_head_len(fields) == f);
    assert forall|i: int| 0 <= i < fields.len() implies (#[trigger] fields[i]).valid() by {
        if i >= f {
            assert(fields[i] == edge_run(object.edges)[i - f]);
        } else {
            assert(fields[i] == head[i]);
            assert(numbers_from(head, 1) && head.len() <= 6 && forall|k: int|
                0 <= k < head.len() ==> (#[trigger] head[k]).valid()) by {
                lemma_object_head_valid(object);
            }
        }
    }
    lemma_fields_parse_written(fields);
    assert forall|i: int| f <= i < fields.len() implies is_bytes(#[trigger] fields[i], 7)
        && edge_decode(payload_of(fields[i])) is Some by {
        assert(fields[i] == edge_run(object.edges)[i - f]);
        lemma_edge_round_trip(object.edges[i - f]);
    }
    let found = object_of_fields(fields)->0;
    assert forall|i: int| 0 <= i < object.edges.len() implies found.edges[i]
        == object.edges[i] by {
        assert(fields[f + i] == edge_run(object.edges)[i]);
        lemma_edge_round_trip(object.edges[i]);
    }
    assert(found.edges =~= object.edges);
}

/// Every field before the edges of an object record can be written.
proof fn lemma_object_head_valid(object: HeapObjectView)
    ensures
        numbers_from(object_head(object), 1),
        object_head(object).len() <= 6,
        forall|k: int|
            0 <= k < object_head(object).len() ==> (#[trigger] object_head(object)[k]).valid(),
{
    let s1 = optional_field(1, nonzero(object.start));
    let s2 = optional_field(2, nonzero(object.klass));
    let s3 = optional_field(3, nonzero(object.size));
    let s4 = optional_field(4, object.objarray_length);
    let s5 = optional_field(5, object.instance_mirror_start);
    let s6 = optional_field(6, object.instance_mirror_count);
    lemma_valid_joined(s1, s2);
    lemma_valid_joined(s1 + s2, s3);
    lemma_valid_joined(s1 + s2 + s3, s4);
    lemma_valid_joined(s1 + s2 + s3 + s4, s5);
    lemma_valid_joined(s1 + s2 + s3 + s4 + s5, s6);
}

/// Two runs of integer fields that can be written make one such run.
proof fn lemma_valid_joined(a: Seq<FieldView>, b: Seq<FieldView>)
    requires
        numbers_from(a, 1),
        forall|k: int| 0 <= k < a.len() ==> (#[trigger] a[k]).valid(),
        numbers_from(b, 1),
        forall|k: int| 0 <= k < b.len() ==> (#[trigger] b[k]).valid(),
    ensures
        numbers_from(a + b, 1),
        forall|k: int| 0 <= k < (a + b).len() ==> (#[trigger] (a + b)[k]).valid(),
{
    assert forall|k: int| 0 <= k < (a + b).len() implies (#[trigger] (a + b)[k]).valid() && (match (
    a + b)[k] {
        FieldView::Varint { number, .. } => number >= 1,
        FieldView::Bytes { .. } => true,
    }) by {
        if k < a.len() {
            assert((a + b)[k] == a[k]);
        } else {
            assert((a + b)[k] == b[k - a.len()]);
        }
    }
}

/// An integer field that is found, or missed, at a place is what writing
/// the integer puts there.
proof fn lemma_integer_written(fields: Seq<FieldView>, at: int, number: u32)
    requires
        0 <= at <= fields.len(),
    ensures
        at + taken(varint_at(fields, at, number)) <= fields.len(),
        fields.subrange(at, at + taken(varint_at(fields, at, number))) == optional_field(
            number,
            varint_at(fields, at, number),
        ),
{
    assert(fields.subrange(at, at + taken(varint_at(fields, at, number))) =~= optional_field(
        number,
        varint_at(fields, at, number),
    ));
}

/// Two stretches of fields that meet make one stretch.
proof fn lemma_stretches_joined(fields: Seq<FieldView>, a: int, b: int, c: int)
    requires
        0 <= a <= b <= c <= fields.len(),
    ensures
        fields.subrange(a, b) + fields.subrange(b, c) == fields.subrange(a, c),
{
    assert(fields.subrange(a, b) + fields.subrange(b, c) =~= fields.subrange(a, c));
}

/// The fields before the edges of an object record that was read are what
/// writing the record puts there.
proof fn lemma_object_head_sound(fields: Seq<FieldView>)
    requires
        object_of_fields(fields) is Some,
    ensures
        0 <= object_head_len(fields) <= fields.len(),
        object_head(object_of_fields(fields)->0) == fields.take(object_head_len(fields)),
{
    reveal(object_of_fields);
    let object = object_of_fields(fields)->0;
    let start = varint_at(fields, 0, 1);
    let a = taken(start);
    lemma_integer_written(fields, 0, 1);
    let klass = varint_at(fields, a, 2);
    let b = a + taken(klass);
    lemma_integer_written(fields, a, 2);
    let size = varint_at(fields, b, 3);
    let c = b + taken(size);
    lemma_integer_written(fields, b, 3);
    let length = varint_at(fields, c, 4);
    let d = c + taken(length);
    lemma_integer_written(fields, c, 4);
    let mirror_start = varint_at(fields, d, 5);
    let e = d + taken(mirror_start);
    lemma_integer_written(fields, d, 5);
    let mirror_count = varint_at(fields, e, 6);
    let f = e + taken(mirror_count);
    lemma_integer_written(fields, e, 6);
    assert(f == object_head_len(fields));
    let s1 = plain_field(1, object.start);
    let s2 = plain_field(2, object.klass);
    let s3 = plain_field(3, object.size);
    let s4 = optional_field(4, object.objarray_length);
    let s5 = optional_field(5, object.instance_mirror_start);
    let s6 = optional_field(6, object.instance_mirror_count);
    assert(s1 == fields.subrange(0, a)) by {
        assert(nonzero(or_zero(start)) == start);
    }
    assert(s2 == fields.subrange(a, b)) by {
        assert(nonzero(or_zero(klass)) == klass);
    }
    assert(s3 == fields.subrange(b, c)) by {
        assert(nonzero(or_zero(size)) == size);
    }
    assert(s4 == fields.subrange(c, d));
    assert(s5 == fields.subrange(d, e));
    assert(s6 == fields.subrange(e, f));
    lemma_stretches_joined(fields, 0, a, b);
    lemma_stretches_joined(fields, 0, b, c);
    lemma_stretches_joined(fields, 0, c, d);
    lemma_stretches_joined(fields, 0, d, e);
    lemma_stretches_joined(fields, 0, e, f);
    assert(object_head(object) == s1 + s2 + s3 + s4 + s5 + s6);
    assert(fields.subrange(0, f) == fields.take(f));
}

/// Bytes that are read as an object record are its stored form.
pub proof fn lemma_object_sound(bytes: Seq<u8>)
    requires
        object_decode(bytes) is Some,
    ensures
        object_bytes(object_decode(bytes)->0) == bytes,
        object_storable(object_decode(bytes)->0),
{
    lemma_fields_parse_sound(bytes);
    let fields = fields_parse(bytes)->0;
    let object = object_decode(bytes)->0;
    let f = object_head_len(fields);
    lemma_object_head_sound(fields);
    assert(object.edges.len() == fields.len() - f && edges_from(fields, f) && forall|i: int|
        0 <= i < fields.len() - f ==> #[trigger] object.edges[i] == edge_decode(
            payload_of(fields[f + i]),
        )->0) by {
        reveal(object_of_fields);
    }
    assert forall|i: int| 0 <= i < object.edges.len() implies edge_run(object.edges)[i]
        == fields[f + i] && edge_bytes(#[trigger] object.edges[i]).len() <= u64::MAX by {
        assert(is_bytes(fields[f + i], 7));
        assert(fields[f + i].valid());
        lemma_edge_sound(payload_of(fields[f + i]));
    }
    assert(edge_run(object.edges) =~= fields.skip(f));
    assert(fields.take(f) + fields.skip(f) =~= fields);
}

/// A capture that was stored is read back as it was.
pub proof fn lemma_dump_round_trip(dump: HeapDumpView)
    requires
        dump_storable(dump),
    ensures
        dump_decode(dump_bytes(dump)) == Some(dump),
{
    let fields = dump_fields(dump);
    let a = dump.objects.len() as int;
    let b = a + dump.roots.len();
    let c = b + dump.spaces.len();
    assert(fields.len() == c);
    assert forall|i: int| 0 <= i < fields.len() implies (#[trigger] fields[i]).valid() by {
        if i < a {
            assert(object_storable(dump.objects[i]));
        } else if i < b {
            assert(root_bytes(dump.roots[i - a]).len() <= u64::MAX);
        } else {
            assert(space_storable(dump.spaces[i - b]));
        }
    }
    lemma_fields_parse_written(fields);
    lemma_run_end(fields, 0, 1, a);
    lemma_run_end(fields, a, 2, b);
    lemma_run_end(fields, b, 3, c);
    assert forall|i: int| 0 <= i < a implies object_decode(payload_of(#[trigger] fields[i]))
        == Some(dump.objects[i]) by {
        assert(object_storable(dump.objects[i]));
        lemma_object_round_trip(dump.objects[i]);
    }
    assert forall|i: int| a <= i < b implies root_decode(payload_of(#[trigger] fields[i])) == Some(
        dump.roots[i - a],
    ) by {
        lemma_root_round_trip(dump.roots[i - a]);
    }
    assert forall|i: int| b <= i < c implies space_decode(payload_of(#[trigger] fields[i]))
        == Some(dump.spaces[i - b]) by {
        assert(space_storable(dump.spaces[i - b]));
        lemma_space_round_trip(dump.spaces[i - b]);
    }
    let found = dump_of_fields(fields)->0;
    assert(found.objects =~= dump.objects);
    assert forall|i: int| 0 <= i < dump.roots.len() implies found.roots[i] == dump.roots[i] by {
        assert(root_decode(payload_of(fields[a + i])) == Some(dump.roots[a + i - a]));
    }
    assert(found.roots =~= dump.roots);
    assert forall|i: int| 0 <= i < dump.spaces.len() implies found.spaces[i]
        == dump.spaces[i] by {
        assert(space_decode(payload_of(fields[b + i])) == Some(dump.spaces[b + i - b]));
    }
    assert(found.spaces =~= dump.spaces);
}

/// A run of fields that were read as object records is what writing the
/// records puts there.
proof fn lemma_object_run_sound(fields: Seq<FieldView>, from: int, to: int)
    requires
        0 <= from <= to <= fields.len(),
        fields_valid(fields),
        forall|i: int|
            from <= i < to ==> is_bytes(#[trigger] fields[i], 1) && object_decode(
                payload_of(fields[i]),
            ) is Some,
    ensures
        Seq::new(
            (to - from) as nat,
            |i: int|
                FieldView::Bytes {
                    number: 1,
                    payload: object_bytes(object_decode(payload_of(fields[from + i]))->0),
                },
        ) == fields.subrange(from, to),
        forall|i: int|
            from <= i < to ==> object_storable(
                object_decode(payload_of(#[trigger] fields[i]))->0,
            ) && object_bytes(object_decode(payload_of(fields[i]))->0).len() <= u64::MAX,
{
    let written = Seq::new(
        (to - from) as nat,
        |i: int|
            FieldView::Bytes {
                number: 1,
                payload: object_bytes(object_decode(payload_of(fields[from + i]))->0),
            },
    );
    assert forall|i: int| from <= i < to implies written[i - from] == #[trigger] fields[i]
        && object_storable(object_decode(payload_of(fields[i]))->0) && object_bytes(
        object_decode(payload_of(fields[i]))->0,
    ).len() <= u64::MAX by {
        assert(fields[i].valid());
        lemma_object_sound(payload_of(fields[i]));
    }
    assert forall|k: int| 0 <= k < to - from implies written[k] == fields.subrange(
        from,
        to,
    )[k] by {
        assert(written[(from + k) - from] == fields[from + k]);
    }
    assert(written =~= fields.subrange(from, to));
}

/// A run of fields that were read as roots is what writing the roots puts
/// there.
proof fn lemma_root_run_sound(fields: Seq<FieldView>, from: int, to: int)
    requires
        0 <= from <= to <= fields.len(),
        fields_valid(fields),
        forall|i: int|
            from <= i < to ==> is_bytes(#[trigger] fields[i], 2) && root_decode(
                payload_of(fields[i]),
            ) is Some,
    ensures
        Seq::new(
            (to - from) as nat,
            |i: int|
                FieldView::Bytes {
                    number: 2,
                    payload: root_bytes(root_decode(payload_of(fields[from + i]))->0),
                },
        ) == fields.subrange(from, to),
        forall|i: int|
            from <= i < to ==> root_bytes(root_decode(payload_of(#[trigger] fields[i]))->0).len()
                <= u64::MAX,
{
    let written = Seq::new(
        (to - from) as nat,
        |i: int|
            FieldView::Bytes {
                number: 2,
                payload: root_bytes(root_decode(payload_of(fields[from + i]))->0),
            },
    );
    assert forall|i: int| from <= i < to implies written[i - from] == #[trigger] fields[i]
        && root_bytes(root_decode(payload_of(fields[i]))->0).len() <= u64::MAX by {
        assert(fields[i].valid());
        lemma_root_sound(payload_of(fields[i]));
    }
    assert forall|k: int| 0 <= k < to - from implies written[k] == fields.subrange(
        from,
        to,
    )[k] by {
        assert(written[(from + k) - from] == fields[from + k]);
    }
    assert(written =~= fields.subrange(from, to));
}

/// A run of fields that were read as spaces is what writing the spaces
/// puts there.
proof fn lemma_space_run_sound(fields: Seq<FieldView>, from: int, to: int)
    requires
        0 <= from <= to <= fields.len(),
        fields_valid(fields),
        forall|i: int|
            from <= i < to ==> is_bytes(#[trigger] fields[i], 3) && space_decode(
                payload_of(fields[i]),
            ) is Some,
    ensures
        Seq::new(
            (to - from) as nat,
            |i: int|
                FieldView::Bytes {
                    number: 3,
                    payload: space_bytes(space_decode(payload_of(fields[from + i]))->0),
                },
        ) == fields.subrange(from, to),
        forall|i: int|
            from <= i < to ==> space_storable(
                space_decode(payload_of(#[trigger] fields[i]))->0,
            ) && space_bytes(space_decode(payload_of(fields[i]))->0).len() <= u64::MAX,
{
    let written = Seq::new(
        (to - from) as nat,
        |i: int|
            FieldView::Bytes {
                number: 3,
                payload: space_bytes(space_decode(payload_of(fields[from + i]))->0),
            },
    );
    assert forall|i: int| from <= i < to implies written[i - from] == #[trigger] fields[i]
        && space_storable(space_decode(payload_of(fields[i]))->0) && space_bytes(
        space_decode(payload_of(fields[i]))->0,
    ).len() <= u64::MAX by {
        assert(fields[i].valid());
        lemma_space_sound(payload_of(fields[i]));
    }
    assert forall|k: int| 0 <= k < to - from implies written[k] == fields.subrange(
        from,
        to,
    )[k] by {
        assert(written[(from + k) - from] == fields[from + k]);
    }
    assert(written =~= fields.subrange(from, to));
}

/// Bytes that are read as a capture are its stored form.
pub proof fn lemma_dump_sound(bytes: Seq<u8>)
    requires
        dump_decode(bytes) is Some,
    ensures
        dump_bytes(dump_decode(bytes)->0) == bytes,
        dump_storable(dump_decode(bytes)->0),
{
    lemma_fields_parse_sound(bytes);
    let fields = fields_parse(bytes)->0;
    let dump = dump_decode(bytes)->0;
    let a = run_end(fields, 0, 1);
    lemma_run_holds(fields, 0, 1);
    let b = run_end(fields, a, 2);
    lemma_run_holds(fields, a, 2);
    let c = run_end(fields, b, 3);
    lemma_run_holds(fields, b, 3);
    lemma_object_run_sound(fields, 0, a);
    lemma_root_run_sound(fields, a, b);
    lemma_space_run_sound(fields, b, c);
    let objects = Seq::new(
        dump.objects.len(),
        |i: int| FieldView::Bytes { number: 1, payload: object_bytes(dump.objects[i]) },
    );
    let roots = Seq::new(
        dump.roots.len(),
        |i: int| FieldView::Bytes { number: 2, payload: root_bytes(dump.roots[i]) },
    );
    let spaces = Seq::new(
        dump.spaces.len(),
        |i: int| FieldView::Bytes { number: 3, payload: space_bytes(dump.spaces[i]) },
    );
    assert(objects =~= fields.subrange(0, a));
    assert(roots =~= fields.subrange(a, b));
    assert(spaces =~= fields.subrange(b, c));
    lemma_stretches_joined(fields, 0, a, b);
    lemma_stretches_joined(fields, 0, b, c);
    assert(fields.subrange(0, c) =~= fields);
    assert(dump_fields(dump) == objects + roots + spaces);
    assert forall|i: int| 0 <= i < dump.objects.len() implies object_storable(
        #[trigger] dump.objects[i],
    ) && object_bytes(dump.objects[i]).len() <= u64::MAX by {
        assert(is_bytes(fields[i], 1));
    }
    assert forall|i: int| 0 <= i < dump.roots.len() implies root_bytes(
        #[trigger] dump.roots[i],
    ).len() <= u64::MAX by {
        assert(is_bytes(fields[a + i], 2));
    }
    assert forall|i: int| 0 <= i < dump.spaces.len() implies space_storable(
        #[trigger] dump.spaces[i],
    ) && space_bytes(dump.spaces[i]).len() <= u64::MAX by {
        assert(is_bytes(fields[b + i], 3));
    }
}

} // verus!
