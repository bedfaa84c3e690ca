//! Variable-length integers: seven bits to a byte, low bits first, the top
//! bit of a byte set while more bytes follow.

use vstd::prelude::*;

verus! {

/// The bytes that stand for `value`.
pub open spec fn varint_bytes(value: nat) -> Seq<u8>
    decreases value,
{
    if value < 128 {
        seq![value as u8]
    } else {
        seq![(value % 128 + 128) as u8] + varint_bytes(value / 128)
    }
}

/// A number found at the front of some bytes.
pub struct VarintRead {
    /// The value of the number.
    pub value: nat,
    /// How many bytes hold it.
    pub len: nat,
}

/// What a reader that has already taken `place` bytes of a number finds at
/// the front of `bytes`: the rest of the number's value and how many bytes
/// hold it. A number has at most ten bytes, and the tenth holds one bit.
pub open spec fn varint_read(bytes: Seq<u8>, place: nat) -> Option<VarintRead>
    decreases bytes.len(),
{
    if bytes.len() == 0 || place >= 10 {
        None
    } else if bytes[0] < 128 {
        if place == 9 && bytes[0] >= 2 {
            None
        } else {
            Some(VarintRead { value: bytes[0] as nat, len: 1 })
        }
    } else {
        match varint_read(bytes.drop_first(), place + 1) {
            Some(high) => Some(
                VarintRead {
                    value: (bytes[0] - 128 + 128 * high.value) as nat,
                    len: high.len + 1,
                },
            ),
            None => None,
        }
    }
}

/// A number in its shortest form found at the front of some bytes.
pub struct VarintParsed {
    /// The value of the number.
    pub value: u64,
    /// How many bytes hold it.
    pub len: nat,
}

/// The number at the front of `bytes`, with its length, where it is
/// written in the shortest form; `None` where there is none or where it is
/// written with more bytes than it needs.
pub open spec fn varint_parse(bytes: Seq<u8>) -> Option<VarintParsed> {
    match varint_read(bytes, 0) {
        Some(read) => if read.len == varint_bytes(read.value).len() {
            Some(VarintParsed { value: read.value as u64, len: read.len })
        } else {
            None
        },
        None => None,
    }
}

/// The bound on what is left of a 64-bit number after `place` bytes.
pub open spec fn varint_limit(place: nat) -> nat {
    if place == 0 {
        0x1_0000_0000_0000_0000
    } else if place == 1 {
        0x200_0000_0000_0000
    } else if place == 2 {
        0x4_0000_0000_0000
    } else if place == 3 {
        0x800_0000_0000
    } else if place == 4 {
        0x10_0000_0000
    } else if place == 5 {
        0x2000_0000
    } else if place == 6 {
        0x40_0000
    } else if place == 7 {
        0x8000
    } else if place == 8 {
        0x100
    } else if place == 9 {
        2
    } else {
        0
    }
}

/// A number below the bound is written in at most ten bytes less `place`.
pub proof fn lemma_varint_len(value: nat, place: nat)
    requires
        place <= 9,
        value < varint_limit(place),
    ensures
        1 <= varint_bytes(value).len() <= 10 - place,
    decreases value,
{
    if value >= 128 {
        lemma_varint_len(value / 128, place + 1);
    }
}

/// What was written is read back, whatever follows it.
pub proof fn lemma_varint_read_written(value: nat, rest: Seq<u8>, place: nat)
    requires
        place <= 9,
        value < varint_limit(place),
    ensures
        varint_read(varint_bytes(value) + rest, place) == Some(
            VarintRead { value, len: varint_bytes(value).len() },
        ),
    decreases value,
{
    let bytes = varint_bytes(value) + rest;
    if value < 128 {
        assert(bytes[0] == value as u8);
    } else {
        lemma_varint_read_written(value / 128, rest, place + 1);
        assert(bytes.drop_first() =~= varint_bytes(value / 128) + rest);
        assert(bytes[0] == (value % 128 + 128) as u8);
    }
}

/// What is read lies within the bytes and below the bound.
pub proof fn lemma_varint_read_bounds(bytes: Seq<u8>, place: nat)
    requires
        varint_read(bytes, place) is Some,
    ensures
        place <= 9,
        1 <= varint_read(bytes, place)->0.len <= bytes.len(),
        varint_read(bytes, place)->0.len <= 10 - place,
        varint_read(bytes, place)->0.value < varint_limit(place),
    decreases bytes.len(),
{
    if bytes[0] >= 128 {
        lemma_varint_read_bounds(bytes.drop_first(), place + 1);
    }
}

/// A number read in as many bytes as its shortest form has was written in
/// that form.
pub proof fn lemma_varint_read_shortest(bytes: Seq<u8>, place: nat)
    requires
        varint_read(bytes, place) is Some,
        varint_read(bytes, place)->0.len == varint_bytes(varint_read(bytes, place)->0.value).len(),
    ensures
        bytes.take(varint_read(bytes, place)->0.len as int) == varint_bytes(
            varint_read(bytes, place)->0.value,
        ),
    decreases bytes.len(),
{
    let value = varint_read(bytes, place)->0.value;
    let n = varint_read(bytes, place)->0.len;
    if bytes[0] < 128 {
        assert(bytes.take(1) =~= seq![bytes[0]]);
    } else {
        let tail = bytes.drop_first();
        let high = varint_read(tail, place + 1)->0.value;
        lemma_varint_read_bounds(tail, place + 1);
        assert(value == bytes[0] - 128 + 128 * high);
        assert(value >= 128) by {
            if value < 128 {
                assert(varint_bytes(value).len() == 1);
            }
        }
        assert(value / 128 == high);
        assert(value % 128 + 128 == bytes[0]);
        lemma_varint_read_shortest(tail, place + 1);
        assert(bytes.take(n as int) =~= seq![bytes[0]] + tail.take(n - 1));
    }
}

/// Writing a number and parsing what was written gives the number back.
pub proof fn lemma_varint_parse_written(value: u64, rest: Seq<u8>)
    ensures
        varint_parse(varint_bytes(value as nat) + rest) == Some(
            VarintParsed { value, len: varint_bytes(value as nat).len() },
        ),
        1 <= varint_bytes(value as nat).len() <= 10,
{
    lemma_varint_read_written(value as nat, rest, 0);
    lemma_varint_len(value as nat, 0);
}

/// What parses was written in the shortest form at the front of the bytes.
pub proof fn lemma_varint_parse_sound(bytes: Seq<u8>)
    requires
        varint_parse(bytes) is Some,
    ensures
        1 <= varint_parse(bytes)->0.len <= bytes.len(),
        varint_parse(bytes)->0.len <= 10,
        bytes.take(varint_parse(bytes)->0.len as int) == varint_bytes(varint_parse(bytes)->0.value as nat),
{
    lemma_varint_read_bounds(bytes, 0);
    lemma_varint_read_shortest(bytes, 0);
}

/// The number of bytes that stand for `value`.
pub fn varint_len(value: u64) -> (n: usize)
    ensures
        n == varint_bytes(value as nat).len(),
        1 <= n <= 10,
{
    let mut left: u64 = value;
    let mut n: usize = 1;
    while left >= 128
        invariant
            1 <= n <= 10,
            left < varint_limit((n - 1) as nat),
            varint_bytes(value as nat).len() == (n - 1) + varint_bytes(left as nat).len(),
        decreases left,
    {
        left = left / 128;
        n += 1;
    }
    n
}

/// `prost::DecodeError`, the reason `prost` gives where it cannot read. The
/// library carries it through and reads nothing from it.
#[verifier::external_type_specification]
#[verifier::external_body]
pub struct ExDecodeError(prost::DecodeError);

/// `prost::encoding::encode_varint` on a vector: it appends the bytes that
/// stand for `value` and leaves what the vector held before.
#[verifier::external_body]
pub(crate) fn put_varint(value: u64, buf: &mut Vec<u8>)
    ensures
        final(buf)@ == old(buf)@ + varint_bytes(value as nat),
{
    prost::encoding::encode_varint(value, buf)
}

/// `prost::encoding::decode_varint` on a slice. It succeeds exactly where
/// a number of at most ten bytes stands at the front, the tenth holding at
/// most one bit, and then returns its value and, second, how many bytes
/// follow the number. It accepts a number written with more bytes than it
/// needs.
#[verifier::external_body]
pub(crate) fn get_varint(bytes: &[u8]) -> (r: (Result<u64, prost::DecodeError>, usize))
    ensures
        r.0 is Ok <==> varint_read(bytes@, 0) is Some,
        r.0 is Ok ==> r.0->Ok_0 == varint_read(bytes@, 0)->0.value && r.1 + varint_read(bytes@, 0)->0.len
            == bytes@.len(),
{
    let mut rest: &[u8] = bytes;
    let value = prost::encoding::decode_varint(&mut rest);
    (value, rest.len())
}

/// Reads the number that stands at `at` in `bytes` in its shortest form.
/// Returns its value and where the bytes after it start. There is no
/// number past the end of the bytes.
pub fn read_varint(bytes: &[u8], at: usize) -> (r: Option<(u64, usize)>)
    ensures
        at > bytes@.len() ==> r is None,
        at <= bytes@.len() ==> match (varint_parse(bytes@.skip(at as int)), r) {
            (Some(number), Some((value, next))) => value == number.value && next == at
                + number.len && next <= bytes@.len(),
            (None, None) => true,
            _ => false,
        },
{
    if at > bytes.len() {
        return None;
    }
    let tail = vstd::slice::slice_subrange(bytes, at, bytes.len());
    assert(tail@ =~= bytes@.skip(at as int));
    let (read, left) = get_varint(tail);
    match read {
        Ok(value) => {
            proof {
                lemma_varint_read_bounds(tail@, 0);
            }
            let n = tail.len() - left;
            if n == varint_len(value) {
                Some((value, at + n))
            } else {
                None
            }
        },
        Err(_) => None,
    }
}

} // verus!
