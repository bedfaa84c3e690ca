//! Writing a capture in its stored form and reading it back, with and
//! without compression.

use crate::format::{
    dump_bytes, dump_decode, dump_fields, dump_of_fields, dump_storable, edge_bytes, edge_decode,
    edge_run, edges_from, is_bytes, lemma_dump_round_trip, lemma_dump_sound, lemma_run_end,
    object_bytes, object_decode, object_head, object_of_fields, object_storable, optional_field,
    payload_of, plain_field, root_bytes, root_decode, run_end, space_bytes, space_decode,
    space_of_fields, space_storable, taken, varint_at,
};
use crate::heapdump::{HeapDump, HeapDumpView, HeapObject, NormalEdge, RootEdge, Space};
use crate::wire::{
    field_views, fields_bytes, lemma_fields_bytes_joined, lemma_fields_bytes_one, put_bytes_field,
    put_varint_field, read_fields, Field, FieldView, MAX_FIELD_NUMBER,
};
use vstd::prelude::*;
use vstd::utf8::{decode_utf8, encode_utf8, valid_utf8};

verus! {

/// Why bytes could not be turned into a capture, or a capture into bytes.
#[derive(Clone, Copy, Debug, PartialEq, Eq)]
pub enum CodecError {
    /// The bytes are not the stored form of any capture.
    Malformed,
    /// The compressor or the decompressor gave up.
    Compression,
}

/// `std::io::Error`, the reason the compressor gives where it gives up.
/// The library carries it through and reads nothing from it.
#[verifier::external_type_specification]
#[verifier::external_body]
pub struct ExIoError(std::io::Error);

/// The frame that the compressor makes of `data` at `level`, where it
/// makes one.
pub uninterp spec fn zstd_frame(data: Seq<u8>, level: i32) -> Option<Seq<u8>>;

/// What the decompressor makes of `frame`, where it makes anything of it.
pub uninterp spec fn zstd_content(frame: Seq<u8>) -> Option<Seq<u8>>;

/// `zstd::stream::encode_all` on a slice. Whether it succeeds depends on
/// `data` and `level` alone, a want of memory aside. What it returns on
/// success is the frame of `data`, and decompressing that frame gives
/// `data` back: the compression loses nothing.
#[verifier::external_body]
fn compress(data: &[u8], level: i32) -> (r: Result<Vec<u8>, std::io::Error>)
    ensures
        r is Ok <==> zstd_frame(data@, level) is Some,
        r is Ok ==> r->Ok_0@ == zstd_frame(data@, level)->0 && zstd_content(r->Ok_0@) == Some(
            data@,
        ),
{
    zstd::stream::encode_all(data, level)
}

/// `zstd::stream::decode_all` on a slice. Whether it succeeds depends on
/// `frame` alone, a want of memory aside. What it returns on success is
/// what the frames in `frame` hold.
#[verifier::external_body]
fn decompress(frame: &[u8]) -> (r: Result<Vec<u8>, std::io::Error>)
    ensures
        r is Ok <==> zstd_content(frame@) is Some,
        r is Ok ==> zstd_content(frame@) == Some(r->Ok_0@),
{
    zstd::stream::decode_all(frame)
}

/// `std::str::from_utf8`. It succeeds exactly on well-formed UTF-8, and
/// the text then has the bytes it was made from.
#[verifier::external_body]
fn text_of(bytes: &[u8]) -> (r: Option<&str>)
    ensures
        r is Some <==> valid_utf8(bytes@),
        r is Some ==> encode_utf8(r->0@) == bytes@,
{
    std::str::from_utf8(bytes).ok()
}

/// Appends the field of an integer that is left out when it is zero.
fn put_plain(buf: &mut Vec<u8>, number: u32, value: u64)
    requires
        1 <= number <= MAX_FIELD_NUMBER,
    ensures
        final(buf)@ == old(buf)@ + fields_bytes(plain_field(number, value)),
{
    put_optional(buf, number, if value == 0 {
        None
    } else {
        Some(value)
    });
}

/// Appends the field of an integer that may be absent.
fn put_optional(buf: &mut Vec<u8>, number: u32, value: Option<u64>)
    requires
        1 <= number <= MAX_FIELD_NUMBER,
    ensures
        final(buf)@ == old(buf)@ + fields_bytes(optional_field(number, value)),
{
    match value {
        Some(value) => {
            put_varint_field(buf, number, value);
            proof {
                lemma_fields_bytes_one(FieldView::Varint { number, value });
            }
        },
        None => {
            assert(buf@ =~= old(buf)@ + fields_bytes(Seq::<FieldView>::empty()));
        },
    }
}

/// The stored form of a reference held in an object.
pub fn encode_edge(edge: &NormalEdge) -> (bytes: Vec<u8>)
    ensures
        bytes@ == edge_bytes(*edge),
{
    let mut buf: Vec<u8> = Vec::new();
    put_plain(&mut buf, 1, edge.slot);
    put_plain(&mut buf, 2, edge.objref);
    proof {
        lemma_fields_bytes_joined(plain_field(1, edge.slot), plain_field(2, edge.objref));
        assert(buf@ =~= fields_bytes(plain_field(1, edge.slot)) + fields_bytes(
            plain_field(2, edge.objref),
        ));
    }
    buf
}

/// The stored form of a root.
pub fn encode_root(root: &RootEdge) -> (bytes: Vec<u8>)
    ensures
        bytes@ == root_bytes(*root),
{
    let mut buf: Vec<u8> = Vec::new();
    put_plain(&mut buf, 1, root.objref);
    assert(buf@ =~= fields_bytes(plain_field(1, root.objref)));
    buf
}

/// The stored form of a space.
pub fn encode_space(space: &Space) -> (bytes: Vec<u8>)
    ensures
        bytes@ == space_bytes(space@),
        space_storable(space@),
{
    let mut buf: Vec<u8> = Vec::new();
    let name = space.name.as_str().as_bytes();
    let ghost named = crate::format::name_field(1, space@.name);
    if name.len() > 0 {
        put_bytes_field(&mut buf, 1, name);
        proof {
            lemma_fields_bytes_one(FieldView::Bytes { number: 1, payload: name@ });
        }
    }
    assert(buf@ =~= fields_bytes(named));
    put_plain(&mut buf, 2, space.start);
    put_plain(&mut buf, 3, space.end);
    proof {
        let second = plain_field(2, space.start);
        let third = plain_field(3, space.end);
        lemma_fields_bytes_joined(named, second);
        lemma_fields_bytes_joined(named + second, third);
        assert(buf@ =~= fields_bytes(named) + fields_bytes(second) + fields_bytes(third));
    }
    buf
}

/// The stored form of an object record.
pub fn encode_object(object: &HeapObject) -> (bytes: Vec<u8>)
    ensures
        bytes@ == object_bytes(object@),
        object_storable(object@),
{
    let mut buf: Vec<u8> = Vec::new();
    let ghost s1 = plain_field(1, object.start);
    let ghost s2 = plain_field(2, object.klass);
    let ghost s3 = plain_field(3, object.size);
    let ghost s4 = optional_field(4, object.objarray_length);
    let ghost s5 = optional_field(5, object.instance_mirror_start);
    let ghost s6 = optional_field(6, object.instance_mirror_count);
    put_plain(&mut buf, 1, object.start);
    assert(buf@ =~= fields_bytes(s1));
    put_plain(&mut buf, 2, object.klass);
    proof {
        lemma_fields_bytes_joined(s1, s2);
    }
    put_plain(&mut buf, 3, object.size);
    proof {
        lemma_fields_bytes_joined(s1 + s2, s3);
    }
    put_optional(&mut buf, 4, object.objarray_length);
    proof {
        lemma_fields_bytes_joined(s1 + s2 + s3, s4);
    }
    put_optional(&mut buf, 5, object.instance_mirror_start);
    proof {
        lemma_fields_bytes_joined(s1 + s2 + s3 + s4, s5);
    }
    put_optional(&mut buf, 6, object.instance_mirror_count);
    proof {
        lemma_fields_bytes_joined(s1 + s2 + s3 + s4 + s5, s6);
    }
    let ghost head = object_head(object@);
    assert(buf@ == fields_bytes(head));
    let ghost edges = object@.edges;
    let mut i: usize = 0;
    assert(edge_run(edges.take(0)) =~= Seq::<FieldView>::empty());
    assert(head + Seq::<FieldView>::empty() =~= head);
    while i < object.edges.len()
        invariant
            i <= object.edges.len(),
            edges == object.edges@,
            head == object_head(object@),
            buf@ == fields_bytes(head + edge_run(edges.take(i as int))),
            forall|j: int| 0 <= j < i ==> edge_bytes(#[trigger] edges[j]).len() <= u64::MAX,
        decreases object.edges.len() - i,
    {
        let stored = encode_edge(&object.edges[i]);
        assert(stored@.len() == stored.len());
        put_bytes_field(&mut buf, 7, stored.as_slice());
        proof {
            let field = FieldView::Bytes { number: 7, payload: edge_bytes(edges[i as int]) };
            let before = edge_run(edges.take(i as int));
            assert(edge_run(edges.take(i + 1)) =~= before + seq![field]);
            assert(head + (before + seq![field]) =~= (head + before) + seq![field]);
            lemma_fields_bytes_joined(head + before, seq![field]);
            lemma_fields_bytes_one(field);
        }
        i += 1;
    }
    assert(edges.take(i as int) =~= edges);
    buf
}

/// The integer of the field at `at`, where that field is an integer field
/// with the number `number`.
fn integer_at(fields: &Vec<Field<'_>>, at: usize, number: u32) -> (found: Option<u64>)
    ensures
        found == varint_at(field_views(fields@), at as int, number),
        found is Some ==> at < fields@.len(),
{
    if at < fields.len() {
        match fields[at] {
            Field::Varint { number: n, value } => if n == number {
                Some(value)
            } else {
                None
            },
            Field::Bytes { .. } => None,
        }
    } else {
        None
    }
}

/// The bytes of the field at `at`, where that field holds bytes under the
/// number `number`.
fn bytes_at<'a>(fields: &Vec<Field<'a>>, at: usize, number: u32) -> (found: Option<&'a [u8]>)
    requires
        at < fields@.len(),
    ensures
        found is Some <==> is_bytes(field_views(fields@)[at as int], number),
        found is Some ==> found->0@ == payload_of(field_views(fields@)[at as int]),
{
    match fields[at] {
        Field::Bytes { number: n, payload } => if n == number {
            Some(payload)
        } else {
            None
        },
        Field::Varint { .. } => None,
    }
}

/// Moves a position past an integer that was found.
fn past(at: usize, found: Option<u64>) -> (next: usize)
    requires
        found is Some ==> at < usize::MAX,
    ensures
        next == at + taken(found),
{
    match found {
        Some(_) => at + 1,
        None => at,
    }
}

/// The value of an integer that is left out when it is zero.
fn value_or_zero(found: Option<u64>) -> (value: u64)
    ensures
        value == crate::format::or_zero(found),
{
    match found {
        Some(value) => value,
        None => 0,
    }
}

/// Whether an integer that is left out when it is zero was written as
/// zero all the same.
fn written_zero(found: Option<u64>) -> (zero: bool)
    ensures
        zero == (found == Some(0u64)),
{
    match found {
        Some(value) => value == 0,
        None => false,
    }
}

/// Reads a reference held in an object from its stored form.
pub fn decode_edge(bytes: &[u8]) -> (r: Option<NormalEdge>)
    ensures
        r == edge_decode(bytes@),
{
    let fields = match read_fields(bytes) {
        Some(fields) => fields,
        None => {
            return None;
        },
    };
    let slot = integer_at(&fields, 0, 1);
    let a = past(0, slot);
    let objref = integer_at(&fields, a, 2);
    let b = past(a, objref);
    if b != fields.len() || written_zero(slot) || written_zero(objref) {
        return None;
    }
    Some(NormalEdge { slot: value_or_zero(slot), objref: value_or_zero(objref) })
}

/// Reads a root from its stored form.
pub fn decode_root(bytes: &[u8]) -> (r: Option<RootEdge>)
    ensures
        r == root_decode(bytes@),
{
    let fields = match read_fields(bytes) {
        Some(fields) => fields,
        None => {
            return None;
        },
    };
    let objref = integer_at(&fields, 0, 1);
    let a = past(0, objref);
    if a != fields.len() || written_zero(objref) {
        return None;
    }
    Some(RootEdge { objref: value_or_zero(objref) })
}

/// Reads a space from its stored form.
pub fn decode_space(bytes: &[u8]) -> (r: Option<Space>)
    ensures
        match (space_decode(bytes@), r) {
            (Some(found), Some(space)) => space@ == found,
            (None, None) => true,
            _ => false,
        },
{
    broadcast use vstd::utf8::encode_utf8_decode_utf8;

    reveal(space_of_fields);
    let fields = match read_fields(bytes) {
        Some(fields) => fields,
        None => {
            return None;
        },
    };
    let mut name = String::new();
    let mut first: usize = 0;
    if fields.len() > 0 {
        match bytes_at(&fields, 0, 1) {
            Some(payload) => {
                if payload.len() == 0 {
                    return None;
                }
                match text_of(payload) {
                    Some(text) => {
                        assert(decode_utf8(encode_utf8(text@)) == text@);
                        name = text.to_owned();
                    },
                    None => {
                        return None;
                    },
                }
                first = 1;
            },
            None => {},
        }
    }
    let start = integer_at(&fields, first, 2);
    let a = past(first, start);
    let end = integer_at(&fields, a, 3);
    let b = past(a, end);
    if b != fields.len() || written_zero(start) || written_zero(end) {
        return None;
    }
    Some(Space { name, start: value_or_zero(start), end: value_or_zero(end) })
}

/// Reads an object record from its stored form.
#[verifier::loop_isolation(false)]
pub fn decode_object(bytes: &[u8]) -> (r: Option<HeapObject>)
    ensures
        match (object_decode(bytes@), r) {
            (Some(found), Some(object)) => object@ == found,
            (None, None) => true,
            _ => false,
        },
{
    reveal(object_of_fields);
    let fields = match read_fields(bytes) {
        Some(fields) => fields,
        None => {
            return None;
        },
    };
    let ghost views = field_views(fields@);
    let start = integer_at(&fields, 0, 1);
    let a = past(0, start);
    let klass = integer_at(&fields, a, 2);
    let b = past(a, klass);
    let size = integer_at(&fields, b, 3);
    let c = past(b, size);
    let length = integer_at(&fields, c, 4);
    let d = past(c, length);
    let mirror_start = integer_at(&fields, d, 5);
    let e = past(d, mirror_start);
    let mirror_count = integer_at(&fields, e, 6);
    let f = past(e, mirror_count);
    if written_zero(start) || written_zero(klass) || written_zero(size) {
        return None;
    }
    assert(f <= fields.len());
    let mut edges: Vec<NormalEdge> = Vec::new();
    let mut i: usize = f;
    while i < fields.len()
        invariant
            f <= i <= fields.len(),
            views == field_views(fields@),
            edges@.len() == i - f,
            forall|j: int|
                f <= j < i ==> is_bytes(#[trigger] views[j], 7) && edge_decode(payload_of(views[j]))
                    == Some(edges@[j - f]),
        decreases fields.len() - i,
    {
        let payload = match bytes_at(&fields, i, 7) {
            Some(payload) => payload,
            None => {
                assert(!edges_from(views, f as int));
                return None;
            },
        };
        match decode_edge(payload) {
            Some(edge) => {
                edges.push(edge);
            },
            None => {
                assert(!edges_from(views, f as int));
                return None;
            },
        }
        i += 1;
    }
    let object = HeapObject {
        start: value_or_zero(start),
        klass: value_or_zero(klass),
        size: value_or_zero(size),
        objarray_length: length,
        instance_mirror_start: mirror_start,
        instance_mirror_count: mirror_count,
        edges,
    };
    assert(edges_from(views, f as int));
    assert(object@.edges =~= object_of_fields(views)->0.edges);
    Some(object)
}

impl HeapDump {
    /// The stored form of the capture, before compression.
    pub fn encode(&self) -> (bytes: Vec<u8>)
        ensures
            bytes@ == dump_bytes(self@),
            dump_storable(self@),
    {
        let mut buf: Vec<u8> = Vec::new();
        let ghost dump = self@;
        let ghost mut written: Seq<FieldView> = Seq::empty();
        assert(fields_bytes(written) =~= Seq::<u8>::empty());
        let mut i: usize = 0;
        while i < self.objects.len()
            invariant
                i <= self.objects.len(),
                dump == self@,
                buf@ == fields_bytes(written),
                written == Seq::new(
                    i as nat,
                    |k: int| FieldView::Bytes { number: 1, payload: object_bytes(dump.objects[k]) },
                ),
                forall|k: int|
                    0 <= k < i ==> object_storable(#[trigger] dump.objects[k]) && object_bytes(
                        dump.objects[k],
                    ).len() <= u64::MAX,
            decreases self.objects.len() - i,
        {
            let stored = encode_object(&self.objects[i]);
            assert(stored@.len() == stored.len());
            put_bytes_field(&mut buf, 1, stored.as_slice());
            proof {
                let field = FieldView::Bytes { number: 1, payload: object_bytes(dump.objects[i as int]) };
                lemma_fields_bytes_joined(written, seq![field]);
                lemma_fields_bytes_one(field);
                written = written + seq![field];
                assert(written =~= Seq::new(
                    (i + 1) as nat,
                    |k: int| FieldView::Bytes { number: 1, payload: object_bytes(dump.objects[k]) },
                ));
            }
            i += 1;
        }
        let ghost objects = written;
        assert(written =~= objects + Seq::<FieldView>::empty());
        let mut i: usize = 0;
        while i < self.roots.len()
            invariant
                i <= self.roots.len(),
                dump == self@,
                buf@ == fields_bytes(written),
                written == objects + Seq::new(
                    i as nat,
                    |k: int| FieldView::Bytes { number: 2, payload: root_bytes(dump.roots[k]) },
                ),
                forall|k: int| 0 <= k < i ==> root_bytes(#[trigger] dump.roots[k]).len() <= u64::MAX,
            decreases self.roots.len() - i,
        {
            let stored = encode_root(&self.roots[i]);
            assert(stored@.len() == stored.len());
            put_bytes_field(&mut buf, 2, stored.as_slice());
            proof {
                let field = FieldView::Bytes { number: 2, payload: root_bytes(dump.roots[i as int]) };
                lemma_fields_bytes_joined(written, seq![field]);
                lemma_fields_bytes_one(field);
                written = written + seq![field];
                assert(written =~= objects + Seq::new(
                    (i + 1) as nat,
                    |k: int| FieldView::Bytes { number: 2, payload: root_bytes(dump.roots[k]) },
                ));
            }
            i += 1;
        }
        let ghost rooted = written;
        assert(written =~= rooted + Seq::<FieldView>::empty());
        let mut i: usize = 0;
        while i < self.spaces.len()
            invariant
                i <= self.spaces.len(),
                dump == self@,
                buf@ == fields_bytes(written),
                written == rooted + Seq::new(
                    i as nat,
                    |k: int| FieldView::Bytes { number: 3, payload: space_bytes(dump.spaces[k]) },
                ),
                forall|k: int|
                    0 <= k < i ==> space_storable(#[trigger] dump.spaces[k]) && space_bytes(
                        dump.spaces[k],
                    ).len() <= u64::MAX,
            decreases self.spaces.len() - i,
        {
            let stored = encode_space(&self.spaces[i]);
            assert(stored@.len() == stored.len());
            put_bytes_field(&mut buf, 3, stored.as_slice());
            proof {
                let field = FieldView::Bytes { number: 3, payload: space_bytes(dump.spaces[i as int]) };
                lemma_fields_bytes_joined(written, seq![field]);
                lemma_fields_bytes_one(field);
                written = written + seq![field];
                assert(written =~= rooted + Seq::new(
                    (i + 1) as nat,
                    |k: int| FieldView::Bytes { number: 3, payload: space_bytes(dump.spaces[k]) },
                ));
            }
            i += 1;
        }
        assert(written == dump_fields(dump));
        buf
    }

    /// Reads a capture from its stored form, before compression. It
    /// succeeds exactly on the bytes that [`HeapDump::encode`] writes, and
    /// gives the capture they were written from.
    pub fn decode(bytes: &[u8]) -> (r: Result<HeapDump, CodecError>)
        ensures
            match (dump_decode(bytes@), r) {
                (Some(found), Ok(dump)) => dump@ == found,
                (None, Err(e)) => e == CodecError::Malformed,
                _ => false,
            },
            r is Ok ==> dump_bytes(r->Ok_0@) == bytes@ && dump_storable(r->Ok_0@),
            r is Err ==> forall|dump: HeapDumpView|
                dump_storable(dump) ==> dump_bytes(dump) != bytes@,
    {
        let read = HeapDump::decode_fields(bytes);
        proof {
            if dump_decode(bytes@) is Some {
                lemma_dump_sound(bytes@);
            } else {
                assert forall|dump: HeapDumpView| dump_storable(dump) implies dump_bytes(dump)
                    != bytes@ by {
                    lemma_dump_round_trip(dump);
                }
            }
        }
        match read {
            Some(dump) => Ok(dump),
            None => Err(CodecError::Malformed),
        }
    }

    /// Splits the stored form into its fields and reads them as the runs
    /// of object records, roots and spaces.
    fn decode_fields(bytes: &[u8]) -> (r: Option<HeapDump>)
        ensures
            match (dump_decode(bytes@), r) {
                (Some(found), Some(dump)) => dump@ == found,
                (None, None) => true,
                _ => false,
            },
    {
        let fields = match read_fields(bytes) {
            Some(fields) => fields,
            None => {
                return None;
            },
        };
        let ghost views = field_views(fields@);
        let (objects, a) = match decode_object_run(&fields, 0) {
            Some(run) => run,
            None => {
                return None;
            },
        };
        let (roots, b) = match decode_root_run(&fields, a) {
            Some(run) => run,
            None => {
                return None;
            },
        };
        let (spaces, c) = match decode_space_run(&fields, b) {
            Some(run) => run,
            None => {
                return None;
            },
        };
        if c != fields.len() {
            return None;
        }
        let dump = HeapDump { objects, roots, spaces };
        proof {
            let found = dump_of_fields(views)->0;
            assert(dump@.objects =~= found.objects);
            assert forall|k: int| 0 <= k < b - a implies dump@.roots[k] == found.roots[k] by {
                assert(root_decode(payload_of(views[a + k])) == Some(roots@[a + k - a]));
            }
            assert(dump@.roots =~= found.roots);
            assert forall|k: int| 0 <= k < c - b implies dump@.spaces[k] == found.spaces[k] by {
                assert(space_decode(payload_of(views[b + k])) == Some(spaces@[b + k - b]@));
            }
            assert(dump@.spaces =~= found.spaces);
        }
        Some(dump)
    }

    /// The capture as it is stored: its stored form, compressed. It fails
    /// exactly where the compressor makes no frame of the stored form.
    pub fn dump_to_bytes(&self) -> (r: Result<Vec<u8>, CodecError>)
        ensures
            dump_storable(self@),
            r is Ok <==> zstd_frame(dump_bytes(self@), 0) is Some,
            r is Ok ==> r->Ok_0@ == zstd_frame(dump_bytes(self@), 0)->0 && zstd_content(r->Ok_0@)
                == Some(dump_bytes(self@)),
            r is Err ==> r->Err_0 == CodecError::Compression,
    {
        let buf = self.encode();
        match compress(buf.as_slice(), 0) {
            Ok(frame) => Ok(frame),
            Err(_) => Err(CodecError::Compression),
        }
    }

    /// Reads a capture as it is stored. Where the decompressor makes
    /// nothing of `frame`, that is the fault; where it makes something of
    /// it, the result is what [`HeapDump::decode`] makes of that.
    pub fn load_from_bytes(frame: &[u8]) -> (r: Result<HeapDump, CodecError>)
        ensures
            zstd_content(frame@) is None ==> r == Err::<HeapDump, CodecError>(
                CodecError::Compression,
            ),
            zstd_content(frame@) is Some ==> (r is Ok <==> dump_decode(zstd_content(frame@)->0)
                is Some),
            zstd_content(frame@) is Some && r is Err ==> r->Err_0 == CodecError::Malformed,
            r is Ok ==> Some(r->Ok_0@) == dump_decode(zstd_content(frame@)->0) && zstd_content(
                frame@,
            ) == Some(dump_bytes(r->Ok_0@)) && dump_storable(r->Ok_0@),
    {
        match decompress(frame) {
            Ok(bytes) => HeapDump::decode(bytes.as_slice()),
            Err(_) => Err(CodecError::Compression),
        }
    }
}

/// A run reaches past every place up to which all fields belong to it.
proof fn lemma_run_reaches(fields: Seq<FieldView>, start: int, number: u32, at: int)
    requires
        0 <= start <= at < fields.len(),
        forall|j: int| start <= j <= at ==> is_bytes(#[trigger] fields[j], number),
    ensures
        at < run_end(fields, start, number),
{
    crate::format::lemma_run_holds(fields, start, number);
    let end = run_end(fields, start, number);
    if end <= at {
        assert(is_bytes(fields[end], number));
    }
}

/// Reads the run of object records that starts at `from`. Returns the
/// records and where the run ends, or `None` where a field of the run does
/// not hold an object record.
fn decode_object_run(fields: &Vec<Field<'_>>, from: usize) -> (r: Option<(Vec<HeapObject>, usize)>)
    requires
        from <= fields@.len(),
    ensures
        ({
            let views = field_views(fields@);
            let end = run_end(views, from as int, 1);
            match r {
                Some((objects, next)) => next == end && next <= fields@.len() && objects@.len() == end
                    - from && forall|
                    j: int,
                |
                    from <= j < end ==> object_decode(payload_of(#[trigger] views[j])) == Some(
                        objects@[j - from]@,
                    ),
                None => exists|j: int|
                    from <= j < end && object_decode(payload_of(#[trigger] views[j])) is None,
            }
        }),
{
    let ghost views = field_views(fields@);
    let mut objects: Vec<HeapObject> = Vec::new();
    let mut i: usize = from;
    while i < fields.len()
        invariant
            from <= i <= fields.len(),
            views == field_views(fields@),
            objects@.len() == i - from,
            forall|j: int| from <= j < i ==> is_bytes(#[trigger] views[j], 1),
            forall|j: int|
                from <= j < i ==> object_decode(payload_of(#[trigger] views[j])) == Some(
                    objects@[j - from]@,
                ),
        decreases fields.len() - i,
    {
        match bytes_at(fields, i, 1) {
            Some(payload) => {
                match decode_object(payload) {
                    Some(object) => {
                        objects.push(object);
                    },
                    None => {
                        proof {
                            lemma_run_reaches(views, from as int, 1, i as int);
                            assert(object_decode(payload_of(views[i as int])) is None);
                        }
                        return None;
                    },
                }
                i += 1;
            },
            None => {
                proof {
                    lemma_run_end(views, from as int, 1, i as int);
                }
                return Some((objects, i));
            },
        }
    }
    proof {
        lemma_run_end(views, from as int, 1, i as int);
    }
    Some((objects, i))
}

/// Reads the run of roots that starts at `from`. Returns the roots and
/// where the run ends, or `None` where a field of the run does not hold a
/// root.
fn decode_root_run(fields: &Vec<Field<'_>>, from: usize) -> (r: Option<(Vec<RootEdge>, usize)>)
    requires
        from <= fields@.len(),
    ensures
        ({
            let views = field_views(fields@);
            let end = run_end(views, from as int, 2);
            match r {
                Some((roots, next)) => next == end && next <= fields@.len() && roots@.len() == end
                    - from && forall|j: int|
                    from <= j < end ==> root_decode(payload_of(#[trigger] views[j])) == Some(
                        roots@[j - from],
                    ),
                None => exists|j: int|
                    from <= j < end && root_decode(payload_of(#[trigger] views[j])) is None,
            }
        }),
{
    let ghost views = field_views(fields@);
    let mut roots: Vec<RootEdge> = Vec::new();
    let mut i: usize = from;
    while i < fields.len()
        invariant
            from <= i <= fields.len(),
            views == field_views(fields@),
            roots@.len() == i - from,
            forall|j: int| from <= j < i ==> is_bytes(#[trigger] views[j], 2),
            forall|j: int|
                from <= j < i ==> root_decode(payload_of(#[trigger] views[j])) == Some(
                    roots@[j - from],
                ),
        decreases fields.len() - i,
    {
        match bytes_at(fields, i, 2) {
            Some(payload) => {
                match decode_root(payload) {
                    Some(root) => {
                        roots.push(root);
                    },
                    None => {
                        proof {
                            lemma_run_reaches(views, from as int, 2, i as int);
                            assert(root_decode(payload_of(views[i as int])) is None);
                        }
                        return None;
                    },
                }
                i += 1;
            },
            None => {
                proof {
                    lemma_run_end(views, from as int, 2, i as int);
                }
                return Some((roots, i));
            },
        }
    }
    proof {
        lemma_run_end(views, from as int, 2, i as int);
    }
    Some((roots, i))
}

/// Reads the run of spaces that starts at `from`. Returns the spaces and
/// where the run ends, or `None` where a field of the run does not hold a
/// space.
fn decode_space_run(fields: &Vec<Field<'_>>, from: usize) -> (r: Option<(Vec<Space>, usize)>)
    requires
        from <= fields@.len(),
    ensures
        ({
            let views = field_views(fields@);
            let end = run_end(views, from as int, 3);
            match r {
                Some((spaces, next)) => next == end && next <= fields@.len() && spaces@.len() == end
                    - from && forall|
                    j: int,
                |
                    from <= j < end ==> space_decode(payload_of(#[trigger] views[j])) == Some(
                        spaces@[j - from]@,
                    ),
                None => exists|j: int|
                    from <= j < end && space_decode(payload_of(#[trigger] views[j])) is None,
            }
        }),
{
    let ghost views = field_views(fields@);
    let mut spaces: Vec<Space> = Vec::new();
    let mut i: usize = from;
    while i < fields.len()
        invariant
            from <= i <= fields.len(),
            views == field_views(fields@),
            spaces@.len() == i - from,
            forall|j: int| from <= j < i ==> is_bytes(#[trigger] views[j], 3),
            forall|j: int|
                from <= j < i ==> space_decode(payload_of(#[trigger] views[j])) == Some(
                    spaces@[j - from]@,
                ),
        decreases fields.len() - i,
    {
        match bytes_at(fields, i, 3) {
            Some(payload) => {
                match decode_space(payload) {
                    Some(space) => {
                        spaces.push(space);
                    },
                    None => {
                        proof {
                            lemma_run_reaches(views, from as int, 3, i as int);
                            assert(space_decode(payload_of(views[i as int])) is None);
                        }
                        return None;
                    },
                }
                i += 1;
            },
            None => {
                proof {
                    lemma_run_end(views, from as int, 3, i as int);
                }
                return Some((spaces, i));
            },
        }
    }
    proof {
        lemma_run_end(views, from as int, 3, i as int);
    }
    Some((spaces, i))
}

/// A capture that was stored is read back as it was: whatever frame the
/// decompressor turns back into the stored form of `dump` is read as
/// `dump`.
pub proof fn lemma_stored_capture_reads_back(dump: HeapDumpView, frame: Seq<u8>)
    requires
        dump_storable(dump),
        zstd_content(frame) == Some(dump_bytes(dump)),
    ensures
        dump_decode(zstd_content(frame)->0) == Some(dump),
{
    lemma_dump_round_trip(dump);
}

} // verus!
