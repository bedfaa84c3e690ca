//! Type-info blocks: for each class, which fields of its instances hold
//! references. The fields of an ordinary class are kept as runs: blocks of
//! consecutive reference fields.

use crate::heapdump::{HeapObject, HeapObjectView};
use std::collections::HashMap;
use vstd::prelude::*;

verus! {

/// The width of a reference field, in bytes.
pub const WORD: u64 = 8;

/// A run of `count` reference fields, the first at `offset` from the start
/// of the object, each a word after the one before.
#[derive(Clone, Copy, Debug, PartialEq, Eq)]
pub struct OopMapBlock {
    pub offset: u64,
    pub count: u64,
}

/// What is known of a class: whether its instances are arrays of
/// references and, where they are not, the runs of their reference fields.
#[derive(Clone, Debug, PartialEq, Eq)]
pub struct Tib {
    pub is_objarray: bool,
    pub oop_map_blocks: Vec<OopMapBlock>,
}

/// What a [`Tib`] holds, as a mathematical value.
pub struct TibView {
    pub is_objarray: bool,
    pub oop_map_blocks: Seq<OopMapBlock>,
}

impl View for Tib {
    type V = TibView;

    open spec fn view(&self) -> TibView {
        TibView { is_objarray: self.is_objarray, oop_map_blocks: self.oop_map_blocks@ }
    }
}

/// The offsets that a block stands for: `count` of them, a word apart,
/// from `offset` on.
pub open spec fn expand_block(block: OopMapBlock) -> Seq<int> {
    Seq::new(block.count as nat, |i: int| block.offset + 8 * i)
}

/// The offsets that a list of blocks stands for, block after block.
pub open spec fn expand(blocks: Seq<OopMapBlock>) -> Seq<int>
    decreases blocks.len(),
{
    if blocks.len() == 0 {
        Seq::empty()
    } else {
        expand(blocks.drop_last()) + expand_block(blocks.last())
    }
}

/// Whether `next` is the offset that follows the run `block` at one word's
/// distance.
pub open spec fn continues(block: OopMapBlock, next: int) -> bool {
    next == block.offset + 8 * block.count
}

/// The blocks that a list of offsets is compacted into: an offset joins
/// the block before it exactly where it lies one word after the last
/// offset of that block; any other offset starts a block of its own.
pub open spec fn compacted(offsets: Seq<u64>) -> Seq<OopMapBlock>
    decreases offsets.len(),
{
    if offsets.len() == 0 {
        Seq::empty()
    } else {
        let before = compacted(offsets.drop_last());
        let next = offsets.last();
        if before.len() > 0 && continues(before.last(), next as int) {
            before.drop_last().push(
                OopMapBlock { offset: before.last().offset, count: (before.last().count + 1) as u64 },
            )
        } else {
            before.push(OopMapBlock { offset: next, count: 1 })
        }
    }
}

/// How many offsets of the list do not lie one word after the offset
/// before them.
pub open spec fn breaks(offsets: Seq<int>) -> nat
    decreases offsets.len(),
{
    if offsets.len() <= 1 {
        0
    } else {
        let before = breaks(offsets.drop_last());
        if offsets[offsets.len() - 1] == offsets[offsets.len() - 2] + 8 {
            before
        } else {
            before + 1
        }
    }
}

/// The offsets as mathematical integers.
pub open spec fn as_ints(offsets: Seq<u64>) -> Seq<int> {
    Seq::new(offsets.len(), |i: int| offsets[i] as int)
}

/// Whether the blocks are in their shortest form: none is empty, and none
/// continues the one before it.
pub open spec fn canonical(blocks: Seq<OopMapBlock>) -> bool {
    &&& forall|i: int| 0 <= i < blocks.len() ==> (#[trigger] blocks[i]).count >= 1
    &&& forall|i: int|
        0 < i < blocks.len() ==> !continues(blocks[i - 1], (#[trigger] blocks[i]).offset as int)
}

/// What compaction keeps: the blocks stand for the offsets, each block has
/// as many offsets as it says and ends in the last offset so far, and
/// there is one block more than there are breaks.
pub proof fn lemma_compacted(offsets: Seq<u64>)
    ensures
        expand(compacted(offsets)) == as_ints(offsets),
        canonical(compacted(offsets)),
        offsets.len() == 0 ==> compacted(offsets).len() == 0,
        offsets.len() > 0 ==> compacted(offsets).len() == breaks(as_ints(offsets)) + 1,
        offsets.len() > 0 ==> compacted(offsets).last().count <= offsets.len()
            && compacted(offsets).last().offset + 8 * (compacted(offsets).last().count - 1)
            == offsets.last(),
    decreases offsets.len(),
{
    if offsets.len() == 0 {
        assert(as_ints(offsets) =~= Seq::<int>::empty());
    } else {
        let shorter = offsets.drop_last();
        let before = compacted(shorter);
        let next = offsets.last();
        let blocks = compacted(offsets);
        lemma_compacted(shorter);
        assert(as_ints(shorter) =~= as_ints(offsets).drop_last());
        if before.len() > 0 && continues(before.last(), next as int) {
            let last = before.last();
            let grown = OopMapBlock { offset: last.offset, count: (last.count + 1) as u64 };
            assert(blocks.drop_last() =~= before.drop_last());
            assert(expand_block(grown) =~= expand_block(last).push(next as int));
            assert(expand(before) == expand(before.drop_last()) + expand_block(last));
            assert(expand(blocks) =~= expand(before).push(next as int));
            assert(as_ints(offsets) =~= as_ints(shorter).push(next as int));
            assert forall|i: int| 0 < i < blocks.len() implies !continues(
                blocks[i - 1],
                (#[trigger] blocks[i]).offset as int,
            ) by {
                assert(blocks[i - 1] == before[i - 1]);
                assert(blocks[i].offset == before[i].offset);
            }
        } else {
            let single = OopMapBlock { offset: next, count: 1 };
            assert(blocks.drop_last() =~= before);
            assert(expand_block(single) =~= seq![next as int]);
            assert(expand(blocks) =~= expand(before).push(next as int));
            assert(as_ints(offsets) =~= as_ints(shorter).push(next as int));
            assert forall|i: int| 0 < i < blocks.len() implies !continues(
                blocks[i - 1],
                (#[trigger] blocks[i]).offset as int,
            ) by {
                if i < before.len() {
                    assert(blocks[i] == before[i]);
                    assert(blocks[i - 1] == before[i - 1]);
                } else {
                    assert(blocks[i - 1] == before.last());
                }
            }
        }
    }
}

/// Adding the offsets of one block to a list adds at most one break.
proof fn lemma_breaks_with_block(offsets: Seq<int>, block: OopMapBlock)
    ensures
        breaks(offsets + expand_block(block)) <= breaks(offsets) + (if offsets.len() > 0
            && block.count > 0 {
            1nat
        } else {
            0nat
        }),
    decreases block.count,
{
    let run = expand_block(block);
    if block.count == 0 {
        assert(offsets + run =~= offsets);
    } else {
        let shorter = OopMapBlock { offset: block.offset, count: (block.count - 1) as u64 };
        let all = offsets + run;
        lemma_breaks_with_block(offsets, shorter);
        assert(all.drop_last() =~= offsets + expand_block(shorter));
        if block.count >= 2 {
            assert(all[all.len() - 1] == run[block.count - 1]);
            assert(all[all.len() - 2] == run[block.count - 2]);
        }
    }
}

/// A list of blocks without an empty block has at least one block more
/// than its offsets have breaks.
pub proof fn lemma_blocks_cover_breaks(blocks: Seq<OopMapBlock>)
    requires
        forall|i: int| 0 <= i < blocks.len() ==> (#[trigger] blocks[i]).count >= 1,
    ensures
        blocks.len() > 0 ==> expand(blocks).len() > 0 && breaks(expand(blocks)) + 1 <= blocks.len(),
    decreases blocks.len(),
{
    if blocks.len() > 0 {
        let before = blocks.drop_last();
        lemma_blocks_cover_breaks(before);
        lemma_breaks_with_block(expand(before), blocks.last());
        assert(expand_block(blocks.last()).len() > 0);
        if before.len() == 0 {
            assert(expand(before) =~= Seq::<int>::empty());
        }
    }
}

/// Expanding what was compacted gives the offsets back, and no list of
/// blocks without an empty block that stands for the same offsets is
/// shorter.
pub proof fn lemma_compaction_law(offsets: Seq<u64>, other: Seq<OopMapBlock>)
    requires
        forall|i: int| 0 <= i < other.len() ==> (#[trigger] other[i]).count >= 1,
        expand(other) == as_ints(offsets),
    ensures
        expand(compacted(offsets)) == as_ints(offsets),
        canonical(compacted(offsets)),
        compacted(offsets).len() <= other.len(),
{
    lemma_compacted(offsets);
    lemma_blocks_cover_breaks(other);
    if other.len() == 0 {
        assert(expand(other) =~= Seq::<int>::empty());
    }
}

/// Whether every reference of the record lies at or after the start of
/// its object.
pub open spec fn fields_follow(object: HeapObjectView) -> bool {
    forall|i: int| 0 <= i < object.edges.len() ==> (#[trigger] object.edges[i]).slot >= object.start
}

/// How far each reference of the record lies from the start of its
/// object, for a record whose references lie at or after that start.
pub open spec fn slot_offsets(object: HeapObjectView) -> Seq<u64> {
    Seq::new(object.edges.len(), |i: int| (object.edges[i].slot - object.start) as u64)
}

/// The blocks of the class of `object`, taken from the references that its
/// record lists.
pub fn compact(object: &HeapObject) -> (blocks: Vec<OopMapBlock>)
    requires
        fields_follow(object@),
    ensures
        blocks@ == compacted(slot_offsets(object@)),
{
    let mut oop_map_blocks: Vec<OopMapBlock> = Vec::new();
    let ghost offsets = slot_offsets(object@);
    let mut i: usize = 0;
    assert(offsets.take(0) =~= Seq::<u64>::empty());
    while i < object.edges.len()
        invariant
            i <= object.edges.len(),
            offsets == slot_offsets(object@),
            fields_follow(object@),
            oop_map_blocks@ == compacted(offsets.take(i as int)),
        decreases object.edges.len() - i,
    {
        assert(object@.edges[i as int].slot >= object.start);
        let offset = object.edges[i].slot - object.start;
        proof {
            assert(offsets.take(i + 1).drop_last() =~= offsets.take(i as int));
            assert(offsets.take(i + 1).last() == offset);
            lemma_compacted(offsets.take(i as int));
        }
        let n = oop_map_blocks.len();
        let mut joined = false;
        if n > 0 {
            let last = oop_map_blocks[n - 1];
            let reach = match last.count.checked_mul(WORD) {
                Some(width) => last.offset.checked_add(width),
                None => None,
            };
            if reach == Some(offset) {
                let ghost before = oop_map_blocks@;
                oop_map_blocks.set(n - 1, OopMapBlock { offset: last.offset, count: last.count + 1 });
                assert(oop_map_blocks@ =~= before.drop_last().push(
                    OopMapBlock { offset: last.offset, count: (last.count + 1) as u64 },
                ));
                joined = true;
            }
        }
        if !joined {
            oop_map_blocks.push(OopMapBlock { offset, count: 1 });
        }
        i += 1;
    }
    assert(offsets.take(i as int) =~= offsets);
    oop_map_blocks
}

/// The type-info blocks built so far, by class.
pub struct TibCache {
    tibs: HashMap<u64, Tib>,
}

impl View for TibCache {
    type V = Map<u64, TibView>;

    closed spec fn view(&self) -> Map<u64, TibView> {
        Map::new(|klass: u64| self.tibs@.contains_key(klass), |klass: u64| self.tibs@[klass]@)
    }
}

impl TibCache {
    /// A cache that holds no block.
    pub fn new() -> (cache: TibCache)
        ensures
            cache@ == Map::<u64, TibView>::empty(),
    {
        let cache = TibCache { tibs: HashMap::new() };
        assert(cache@ =~= Map::<u64, TibView>::empty());
        cache
    }

    /// The block of the class `klass`, where one was built.
    pub fn get(&self, klass: u64) -> (tib: Option<&Tib>)
        ensures
            tib is Some <==> self@.contains_key(klass),
            tib is Some ==> tib->0@ == self@[klass],
    {
        broadcast use vstd::std_specs::hash::group_hash_axioms;

        self.tibs.get(&klass)
    }

    /// How many classes have a block.
    pub fn len(&self) -> (n: usize)
        ensures
            n == self@.dom().len(),
    {
        broadcast use vstd::std_specs::hash::group_hash_axioms;

        assert(self@.dom() =~= self.tibs@.dom());
        self.tibs.len()
    }
}

impl Tib {
    /// Makes sure the class `klass` has a block: where it has none yet,
    /// `tib` builds it. Returns whether it was built now. A block, once
    /// built, stays as it is.
    pub fn insert_with_cache<F: FnOnce() -> Tib>(cache: &mut TibCache, klass: u64, tib: F) -> (built:
        bool)
        requires
            call_requires(tib, ()),
        ensures
            built == !old(cache)@.contains_key(klass),
            !built ==> final(cache)@ == old(cache)@,
            built ==> exists|made: Tib|
                call_ensures(tib, (), made) && final(cache)@ == old(cache)@.insert(klass, made@),
    {
        broadcast use vstd::std_specs::hash::group_hash_axioms;

        if cache.tibs.contains_key(&klass) {
            false
        } else {
            let made = tib();
            cache.tibs.insert(klass, made);
            assert(cache@ =~= old(cache)@.insert(klass, made@));
            true
        }
    }

    /// Makes sure the class `klass` has a block, as a class whose instances
    /// are arrays of references. Returns whether the block was built now.
    pub fn objarray(cache: &mut TibCache, klass: u64) -> (built: bool)
        ensures
            built == !old(cache)@.contains_key(klass),
            !built ==> final(cache)@ == old(cache)@,
            built ==> final(cache)@ == old(cache)@.insert(
                klass,
                TibView { is_objarray: true, oop_map_blocks: Seq::empty() },
            ),
    {
        let make = || -> (made: Tib)
            ensures
                made@ == (TibView { is_objarray: true, oop_map_blocks: Seq::empty() }),
            { Tib { is_objarray: true, oop_map_blocks: Vec::new() } };
        Tib::insert_with_cache(cache, klass, make)
    }

    /// Makes sure the class `klass` has a block, as an ordinary class
    /// whose reference fields are those that the record `obj` lists.
    /// Returns whether the block was built now.
    pub fn non_objarray(cache: &mut TibCache, klass: u64, obj: &HeapObject) -> (built: bool)
        requires
            fields_follow(obj@),
        ensures
            built == !old(cache)@.contains_key(klass),
            !built ==> final(cache)@ == old(cache)@,
            built ==> final(cache)@ == old(cache)@.insert(
                klass,
                TibView {
                    is_objarray: false,
                    oop_map_blocks: compacted(slot_offsets(obj@)),
                },
            ),
    {
        let make = || -> (made: Tib)
            ensures
                made@ == (TibView {
                    is_objarray: false,
                    oop_map_blocks: compacted(slot_offsets(obj@)),
                }),
            { Tib { is_objarray: false, oop_map_blocks: compact(obj) } };
        Tib::insert_with_cache(cache, klass, make)
    }
}

} // verus!
