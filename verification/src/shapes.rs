//! The structural shape of the objects a profiled sanity pass meets, grouped
//! by pass.

use vstd::prelude::*;

verus! {

/// How an object lays out its references.
#[derive(Clone, Copy, Debug, PartialEq, Eq)]
pub enum Kind {
    /// An ordinary object: its references sit at fixed offsets.
    Scalar,
    /// An array of references.
    ObjArray,
    /// An array that holds no references.
    ValArray,
}

/// The shape of one object: its kind and, for a scalar object, the offset of
/// each reference field from the start of the object.
#[derive(Clone, Debug, PartialEq, Eq)]
pub struct Shape {
    pub kind: Kind,
    pub object: u64,
    pub offsets: Vec<i64>,
}

/// The shapes recorded during one profiled pass, in the order met.
#[derive(Clone, Debug, PartialEq, Eq)]
pub struct ShapesEpoch {
    pub shapes: Vec<Shape>,
}

/// Every epoch recorded so far, oldest first.
#[derive(Clone, Debug, PartialEq, Eq)]
pub struct ShapesIteration {
    pub epochs: Vec<ShapesEpoch>,
}

/// What a [`Shape`] holds, as a mathematical value.
pub struct ShapeView {
    pub kind: Kind,
    pub object: u64,
    pub offsets: Seq<i64>,
}

impl View for Shape {
    type V = ShapeView;

    open spec fn view(&self) -> ShapeView {
        ShapeView { kind: self.kind, object: self.object, offsets: self.offsets@ }
    }
}

impl View for ShapesEpoch {
    type V = Seq<ShapeView>;

    open spec fn view(&self) -> Seq<ShapeView> {
        Seq::new(self.shapes@.len(), |i: int| self.shapes@[i]@)
    }
}

impl View for ShapesIteration {
    type V = Seq<Seq<ShapeView>>;

    open spec fn view(&self) -> Seq<Seq<ShapeView>> {
        Seq::new(self.epochs@.len(), |i: int| self.epochs@[i]@)
    }
}

/// The distance from `object` to `slot` as a signed 64-bit number, wrapping
/// round where the true distance does not fit.
pub open spec fn offset_between(slot: u64, object: u64) -> i64 {
    let d = slot as int - object as int;
    if d >= 0x8000_0000_0000_0000 {
        (d - 0x1_0000_0000_0000_0000) as i64
    } else if d < -0x8000_0000_0000_0000 {
        (d + 0x1_0000_0000_0000_0000) as i64
    } else {
        d as i64
    }
}

/// Computes [`offset_between`].
pub fn signed_offset(slot: u64, object: u64) -> (d: i64)
    ensures
        d == offset_between(slot, object),
{
    if slot >= object {
        let up: u64 = slot - object;
        if up <= 0x7fff_ffff_ffff_ffff {
            up as i64
        } else {
            let below: u64 = u64::MAX - up;
            -(below as i64) - 1
        }
    } else {
        let down: u64 = object - slot;
        if down <= 0x8000_0000_0000_0000 {
            let below: u64 = down - 1;
            -(below as i64) - 1
        } else {
            let up: u64 = (u64::MAX - down) + 1;
            up as i64
        }
    }
}

impl ShapesIteration {
    /// An iteration with no epoch.
    pub fn new() -> (iter: ShapesIteration)
        ensures
            iter@ == Seq::<Seq<ShapeView>>::empty(),
    {
        let iter = ShapesIteration { epochs: Vec::new() };
        assert(iter@ =~= Seq::<Seq<ShapeView>>::empty());
        iter
    }

    /// Opens a new, empty epoch after those recorded so far.
    pub fn open_epoch(&mut self)
        ensures
            final(self)@ == old(self)@.push(Seq::<ShapeView>::empty()),
    {
        let epoch = ShapesEpoch { shapes: Vec::new() };
        assert(epoch@ =~= Seq::<ShapeView>::empty());
        self.epochs.push(epoch);
        assert(self@ =~= old(self)@.push(Seq::<ShapeView>::empty()));
    }

    /// Adds `shape` to the newest epoch. Returns `false`, and changes
    /// nothing, when no epoch is open.
    pub fn record(&mut self, shape: Shape) -> (recorded: bool)
        ensures
            recorded == (old(self)@.len() > 0),
            recorded ==> final(self)@ == old(self)@.update(
                old(self)@.len() - 1,
                old(self)@.last().push(shape@),
            ),
            !recorded ==> final(self)@ == old(self)@,
    {
        match self.epochs.pop() {
            Some(epoch) => {
                let mut epoch = epoch;
                let ghost before = epoch@;
                epoch.shapes.push(shape);
                assert(epoch@ =~= before.push(shape@));
                self.epochs.push(epoch);
                assert(self@ =~= old(self)@.update(
                    old(self)@.len() - 1,
                    old(self)@.last().push(shape@),
                ));
                true
            },
            None => {
                assert(self@ =~= old(self)@);
                false
            },
        }
    }
}

} // verus!
