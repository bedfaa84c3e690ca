//! The fields that a stored message is made of. A field is a number with
//! either an integer or a run of bytes; a message is its fields one after
//! another.

use crate::varint::{
    lemma_varint_parse_sound, lemma_varint_parse_written, put_varint, read_varint, varint_bytes,
    varint_parse,
};
use vstd::prelude::*;

verus! {

/// The greatest number a field can have.
pub const MAX_FIELD_NUMBER: u32 = 0x1fff_ffff;

/// A field as a mathematical value.
pub enum FieldView {
    /// An integer.
    Varint { number: u32, value: u64 },
    /// A run of bytes.
    Bytes { number: u32, payload: Seq<u8> },
}

impl FieldView {
    /// Whether the field can be written: its number is in range, and a
    /// run of bytes has a length that fits 64 bits.
    pub open spec fn valid(self) -> bool {
        match self {
            FieldView::Varint { number, value } => 1 <= number <= MAX_FIELD_NUMBER,
            FieldView::Bytes { number, payload } => 1 <= number <= MAX_FIELD_NUMBER
                && payload.len() <= u64::MAX,
        }
    }
}

/// The bytes of one field: the key, which holds the number and the kind,
/// then the integer, or the length of the run and the run.
pub open spec fn field_bytes(field: FieldView) -> Seq<u8> {
    match field {
        FieldView::Varint { number, value } => varint_bytes(number as nat * 8) + varint_bytes(
            value as nat,
        ),
        FieldView::Bytes { number, payload } => varint_bytes(number as nat * 8 + 2) + varint_bytes(
            payload.len(),
        ) + payload,
    }
}

/// The bytes of a message: those of its fields, in order.
pub open spec fn fields_bytes(fields: Seq<FieldView>) -> Seq<u8>
    decreases fields.len(),
{
    if fields.len() == 0 {
        Seq::empty()
    } else {
        field_bytes(fields[0]) + fields_bytes(fields.drop_first())
    }
}

/// Whether every field of the message can be written.
pub open spec fn fields_valid(fields: Seq<FieldView>) -> bool {
    forall|i: int| 0 <= i < fields.len() ==> (#[trigger] fields[i]).valid()
}

/// A field found at the front of some bytes.
pub struct FieldParsed {
    /// The field.
    pub field: FieldView,
    /// How many bytes hold it.
    pub len: nat,
}

/// The field at the front of `bytes`, where one stands there with every
/// integer in its shortest form.
pub open spec fn field_parse(bytes: Seq<u8>) -> Option<FieldParsed> {
    match varint_parse(bytes) {
        None => None,
        Some(key) => {
            let number = key.value / 8;
            let kind = key.value % 8;
            if number == 0 || number > MAX_FIELD_NUMBER || key.len > bytes.len() {
                None
            } else {
                match varint_parse(bytes.skip(key.len as int)) {
                    None => None,
                    Some(word) => {
                        let head = key.len + word.len;
                        if kind == 0 {
                            Some(
                                FieldParsed {
                                    field: FieldView::Varint {
                                        number: number as u32,
                                        value: word.value,
                                    },
                                    len: head,
                                },
                            )
                        } else if kind == 2 && head + word.value <= bytes.len() {
                            Some(
                                FieldParsed {
                                    field: FieldView::Bytes {
                                        number: number as u32,
                                        payload: bytes.subrange(
                                            head as int,
                                            head + word.value as int,
                                        ),
                                    },
                                    len: head + word.value as nat,
                                },
                            )
                        } else {
                            None
                        }
                    },
                }
            }
        },
    }
}

/// The fields that `bytes` are made of, where they are made of fields from
/// the first byte to the last.
pub open spec fn fields_parse(bytes: Seq<u8>) -> Option<Seq<FieldView>>
    decreases bytes.len(),
{
    if bytes.len() == 0 {
        Some(Seq::empty())
    } else {
        match field_parse(bytes) {
            None => None,
            Some(first) => if first.len == 0 || first.len > bytes.len() {
                None
            } else {
                match fields_parse(bytes.skip(first.len as int)) {
                    None => None,
                    Some(rest) => Some(seq![first.field] + rest),
                }
            },
        }
    }
}

/// A field that was written is found again, whatever follows it.
pub proof fn lemma_field_parse_written(field: FieldView, rest: Seq<u8>)
    requires
        field.valid(),
    ensures
        field_parse(field_bytes(field) + rest) == Some(
            FieldParsed { field, len: field_bytes(field).len() },
        ),
        field_bytes(field).len() > 0,
{
    let bytes = field_bytes(field) + rest;
    match field {
        FieldView::Varint { number, value } => {
            let key = (number as u64 * 8) as u64;
            let kb = varint_bytes(key as nat);
            let vb = varint_bytes(value as nat);
            lemma_varint_parse_written(key, vb + rest);
            assert(bytes =~= kb + (vb + rest));
            assert(bytes.skip(kb.len() as int) =~= vb + rest);
            lemma_varint_parse_written(value, rest);
        },
        FieldView::Bytes { number, payload } => {
            let key = (number as u64 * 8 + 2) as u64;
            let kb = varint_bytes(key as nat);
            let lb = varint_bytes(payload.len());
            lemma_varint_parse_written(key, lb + payload + rest);
            assert(bytes =~= kb + (lb + payload + rest));
            assert(bytes.skip(kb.len() as int) =~= lb + (payload + rest));
            lemma_varint_parse_written(payload.len() as u64, payload + rest);
            let head = kb.len() + lb.len();
            assert(bytes.subrange(head as int, (head + payload.len()) as int) =~= payload);
        },
    }
}

/// A field that is found was written at the front of the bytes.
pub proof fn lemma_field_parse_sound(bytes: Seq<u8>)
    requires
        field_parse(bytes) is Some,
    ensures
        field_parse(bytes)->0.field.valid(),
        0 < field_parse(bytes)->0.len <= bytes.len(),
        bytes.take(field_parse(bytes)->0.len as int) == field_bytes(field_parse(bytes)->0.field),
{
    let key = varint_parse(bytes)->0;
    lemma_varint_parse_sound(bytes);
    let tail = bytes.skip(key.len as int);
    let word = varint_parse(tail)->0;
    lemma_varint_parse_sound(tail);
    let head = key.len + word.len;
    let found = field_parse(bytes)->0;
    assert(tail.take(word.len as int) =~= bytes.subrange(key.len as int, head as int));
    assert(bytes.take(head as int) =~= bytes.take(key.len as int) + bytes.subrange(
        key.len as int,
        head as int,
    ));
    if key.value % 8 == 0 {
        assert(key.value as nat == (key.value / 8) as nat * 8);
    } else {
        assert(key.value as nat == (key.value / 8) as nat * 8 + 2);
        assert(bytes.take(found.len as int) =~= bytes.take(head as int) + bytes.subrange(
            head as int,
            head + word.value,
        ));
    }
}

/// A message that was written is found again.
pub proof fn lemma_fields_parse_written(fields: Seq<FieldView>)
    requires
        fields_valid(fields),
    ensures
        fields_parse(fields_bytes(fields)) == Some(fields),
    decreases fields.len(),
{
    if fields.len() == 0 {
        assert(fields =~= Seq::empty());
    } else {
        let rest = fields.drop_first();
        let bytes = fields_bytes(fields);
        lemma_field_parse_written(fields[0], fields_bytes(rest));
        lemma_fields_parse_written(rest);
        assert(bytes.skip(field_bytes(fields[0]).len() as int) =~= fields_bytes(rest));
        assert(seq![fields[0]] + rest =~= fields);
    }
}

/// The fields that are found are what the bytes were written from.
pub proof fn lemma_fields_parse_sound(bytes: Seq<u8>)
    requires
        fields_parse(bytes) is Some,
    ensures
        fields_valid(fields_parse(bytes)->0),
        fields_bytes(fields_parse(bytes)->0) == bytes,
    decreases bytes.len(),
{
    if bytes.len() == 0 {
        assert(bytes =~= Seq::empty());
    } else {
        let first = field_parse(bytes)->0;
        let tail = bytes.skip(first.len as int);
        let rest = fields_parse(tail)->0;
        let fields = seq![first.field] + rest;
        lemma_field_parse_sound(bytes);
        lemma_fields_parse_sound(tail);
        assert(fields.drop_first() =~= rest);
        assert(bytes =~= bytes.take(first.len as int) + tail);
    }
}

/// The bytes of two runs of fields joined are the bytes of the one
/// followed by the bytes of the other.
pub proof fn lemma_fields_bytes_joined(a: Seq<FieldView>, b: Seq<FieldView>)
    ensures
        fields_bytes(a + b) == fields_bytes(a) + fields_bytes(b),
    decreases a.len(),
{
    if a.len() == 0 {
        assert(a + b =~= b);
        assert(fields_bytes(a) + fields_bytes(b) =~= fields_bytes(b));
    } else {
        lemma_fields_bytes_joined(a.drop_first(), b);
        assert((a + b).drop_first() =~= a.drop_first() + b);
        assert(field_bytes(a[0]) + (fields_bytes(a.drop_first()) + fields_bytes(b)) =~= (
        field_bytes(a[0]) + fields_bytes(a.drop_first())) + fields_bytes(b));
    }
}

/// The bytes of a message of one field are the bytes of that field.
pub proof fn lemma_fields_bytes_one(field: FieldView)
    ensures
        fields_bytes(seq![field]) == field_bytes(field),
{
    let one = seq![field];
    assert(one.drop_first() =~= Seq::<FieldView>::empty());
    assert(fields_bytes(one.drop_first()) =~= Seq::<u8>::empty());
    assert(fields_bytes(one) == field_bytes(one[0]) + fields_bytes(one.drop_first()));
    assert(fields_bytes(one) =~= field_bytes(field));
}

/// A field read from a buffer. A run of bytes is a part of the buffer.
#[derive(Clone, Copy, Debug)]
pub enum Field<'a> {
    /// An integer.
    Varint { number: u32, value: u64 },
    /// A run of bytes.
    Bytes { number: u32, payload: &'a [u8] },
}

impl<'a> View for Field<'a> {
    type V = FieldView;

    open spec fn view(&self) -> FieldView {
        match self {
            Field::Varint { number, value } => FieldView::Varint {
                number: *number,
                value: *value,
            },
            Field::Bytes { number, payload } => FieldView::Bytes {
                number: *number,
                payload: payload@,
            },
        }
    }
}

/// The views of a sequence of fields, in order.
pub open spec fn field_views(fields: Seq<Field<'_>>) -> Seq<FieldView> {
    Seq::new(fields.len(), |i: int| fields[i]@)
}

/// Appends an integer field to `buf`.
pub fn put_varint_field(buf: &mut Vec<u8>, number: u32, value: u64)
    requires
        1 <= number <= MAX_FIELD_NUMBER,
    ensures
        final(buf)@ == old(buf)@ + field_bytes(FieldView::Varint { number, value }),
{
    put_varint(number as u64 * 8, buf);
    put_varint(value, buf);
    assert(buf@ =~= old(buf)@ + field_bytes(FieldView::Varint { number, value }));
}

/// Appends a field that holds the bytes `payload` to `buf`.
pub fn put_bytes_field(buf: &mut Vec<u8>, number: u32, payload: &[u8])
    requires
        1 <= number <= MAX_FIELD_NUMBER,
    ensures
        final(buf)@ == old(buf)@ + field_bytes(FieldView::Bytes { number, payload: payload@ }),
{
    put_varint(number as u64 * 8 + 2, buf);
    put_varint(payload.len() as u64, buf);
    let ghost head = buf@;
    buf.extend_from_slice(payload);
    assert(buf@ =~= head + payload@);
    assert(buf@ =~= old(buf)@ + field_bytes(FieldView::Bytes { number, payload: payload@ }));
}

/// Reads the field that stands at `at` in `bytes`. Returns it and where the
/// bytes after it start. There is no field past the end of the bytes.
pub fn read_field<'a>(bytes: &'a [u8], at: usize) -> (r: Option<(Field<'a>, usize)>)
    ensures
        at > bytes@.len() ==> r is None,
        at <= bytes@.len() ==> match (field_parse(bytes@.skip(at as int)), r) {
            (Some(found), Some((field, next))) => field@ == found.field && next == at + found.len
                && next <= bytes@.len(),
            (None, None) => true,
            _ => false,
        },
{
    if at > bytes.len() {
        return None;
    }
    let ghost tail = bytes@.skip(at as int);
    let (key, after_key) = match read_varint(bytes, at) {
        Some(read) => read,
        None => {
            return None;
        },
    };
    let number = key / 8;
    let kind = key % 8;
    if number == 0 || number > MAX_FIELD_NUMBER as u64 {
        return None;
    }
    assert(tail.skip(after_key - at) =~= bytes@.skip(after_key as int));
    let (word, after_word) = match read_varint(bytes, after_key) {
        Some(read) => read,
        None => {
            return None;
        },
    };
    if kind == 0 {
        Some((Field::Varint { number: number as u32, value: word }, after_word))
    } else if kind == 2 && word <= (bytes.len() - after_word) as u64 {
        let end = after_word + word as usize;
        let payload = vstd::slice::slice_subrange(bytes, after_word, end);
        assert(payload@ =~= tail.subrange(after_word - at, after_word - at + word));
        Some((Field::Bytes { number: number as u32, payload }, end))
    } else {
        None
    }
}

/// Splits `bytes` into the fields they are made of.
pub fn read_fields<'a>(bytes: &'a [u8]) -> (r: Option<Vec<Field<'a>>>)
    ensures
        match fields_parse(bytes@) {
            Some(fields) => r is Some && field_views(r->0@) == fields,
            None => r is None,
        },
{
    let mut fields: Vec<Field<'a>> = Vec::new();
    let mut at: usize = 0;
    assert(bytes@.skip(0) =~= bytes@);
    assert(field_views(fields@) =~= Seq::empty());
    while at < bytes.len()
        invariant
            at <= bytes@.len(),
            fields_parse(bytes@) == (match fields_parse(bytes@.skip(at as int)) {
                Some(rest) => Some(field_views(fields@) + rest),
                None => None::<Seq<FieldView>>,
            }),
        decreases bytes@.len() - at,
    {
        let ghost tail = bytes@.skip(at as int);
        match read_field(bytes, at) {
            None => {
                return None;
            },
            Some((field, next)) => {
                proof {
                    lemma_field_parse_sound(tail);
                    assert(tail.skip(next - at) =~= bytes@.skip(next as int));
                    let before = field_views(fields@);
                    assert(field_views(fields@.push(field)) =~= before + seq![field@]);
                    match fields_parse(bytes@.skip(next as int)) {
                        Some(rest) => {
                            assert(before + (seq![field@] + rest) =~= (before + seq![field@])
                                + rest);
                        },
                        None => {},
                    }
                }
                fields.push(field);
                at = next;
            },
        }
    }
    assert(field_views(fields@) + Seq::<FieldView>::empty() =~= field_views(fields@));
    Some(fields)
}

} // verus!
