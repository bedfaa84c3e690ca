//! What the sanity pass asks of its host: the collector's plan and the
//! runtime whose objects are traced. The library takes each answer as it
//! comes: what it does with an answer is stated for every value of it.

use vstd::prelude::*;

verus! {

/// What the plan tells about one of its spaces.
#[derive(Clone, Debug, PartialEq, Eq)]
pub struct CommonSpace {
    pub name: String,
    pub start: u64,
    pub extent: u64,
    pub contiguous: bool,
}

/// What a [`CommonSpace`] holds, as a mathematical value.
pub struct CommonSpaceView {
    pub name: Seq<char>,
    pub start: u64,
    pub extent: u64,
    pub contiguous: bool,
}

impl View for CommonSpace {
    type V = CommonSpaceView;

    open spec fn view(&self) -> CommonSpaceView {
        CommonSpaceView {
            name: self.name@,
            start: self.start,
            extent: self.extent,
            contiguous: self.contiguous,
        }
    }
}

/// The views of a sequence of space descriptions, in order.
pub open spec fn common_space_views(spaces: Seq<CommonSpace>) -> Seq<CommonSpaceView> {
    Seq::new(spaces.len(), |i: int| spaces[i]@)
}

/// The collector's side of the host. Beside each question stands a
/// relation that names what the plan may answer to it. A plan that says
/// nothing of itself lets every answer pass; the library claims of an
/// answer only that it was given.
pub trait Plan {
    /// Whether `sane` is what the structural self-check may find of the
    /// reference to `object`.
    open spec fn reference_sane_is(&self, object: u64, sane: bool) -> bool {
        true
    }

    /// Whether `accepted` is what the collector may answer when asked
    /// whether `object` is a live object of its heap.
    open spec fn accepted_is(&self, object: u64, accepted: bool) -> bool {
        true
    }

    /// Whether `bit` is what the plan may answer when asked for the
    /// valid-object bit of `object`.
    open spec fn valid_bit_is(&self, object: u64, bit: Option<bool>) -> bool {
        true
    }

    /// Whether the reference to `object` passes the structural self-check.
    fn is_sane(&self, object: u64) -> (sane: bool)
        ensures
            self.reference_sane_is(object, sane),
    ;

    /// Whether the collector accepts `object` as a live object of its heap.
    fn sanity_check_object(&self, object: u64) -> (accepted: bool)
        ensures
            self.accepted_is(object, accepted),
    ;

    /// The valid-object bit of `object`, or `None` where the plan keeps no
    /// such bit.
    fn vo_bit(&self, object: u64) -> (bit: Option<bool>)
        ensures
            self.valid_bit_is(object, bit),
    ;

    /// Whether `needed` is what the plan may answer when asked whether
    /// mutators take part in the prepare stage. A plan that says nothing of
    /// itself lets every answer pass.
    open spec fn prepares(&self, needed: bool) -> bool {
        true
    }

    /// Whether `spaces` is what the plan may answer when asked for its
    /// spaces. A plan that says nothing of itself lets every answer pass.
    open spec fn lists(&self, spaces: Seq<CommonSpaceView>) -> bool {
        true
    }

    /// Whether mutators take part in the prepare stage.
    fn needs_prepare_mutator(&self) -> (needed: bool)
        ensures
            self.prepares(needed),
    ;

    /// The plan's spaces, in the order it enumerates them.
    fn spaces(&self) -> (spaces: Vec<CommonSpace>)
        ensures
            self.lists(common_space_views(spaces@)),
    ;
}

/// The runtime's side of the host: its object model and the slots that hold
/// its references. Beside each question stands a relation that names what
/// the runtime may answer to it. A runtime that says nothing of itself lets
/// every answer pass.
pub trait VMBinding {
    /// Whether `object` is what the slot at `slot` may be found to refer
    /// to.
    open spec fn loads(&self, slot: u64, object: u64) -> bool {
        true
    }

    /// Whether `sane` is what the runtime's own check may find of
    /// `object`.
    open spec fn object_sane_is(&self, object: u64, sane: bool) -> bool {
        true
    }

    /// Whether `yes` is what the runtime may answer when asked whether
    /// `object` is an array that holds no references.
    open spec fn val_array_is(&self, object: u64, yes: bool) -> bool {
        true
    }

    /// Whether `yes` is what the runtime may answer when asked whether
    /// `object` is an array of references.
    open spec fn obj_array_is(&self, object: u64, yes: bool) -> bool {
        true
    }

    /// Whether `slots` are what a scan of `object` may find as the slots
    /// that hold its references.
    open spec fn scans(&self, object: u64, slots: Seq<u64>) -> bool {
        true
    }

    /// Whether `info` is what the runtime may answer when asked for the
    /// instance-mirror part of `object`.
    open spec fn mirror_is(&self, object: u64, info: Option<(u64, u64)>) -> bool {
        true
    }

    /// Whether `klass` is what the runtime may give as the class of
    /// `object`.
    open spec fn klass_is(&self, object: u64, klass: u64) -> bool {
        true
    }

    /// Whether `size` is what the runtime may give as the size of
    /// `object`.
    open spec fn size_is(&self, object: u64, size: u64) -> bool {
        true
    }

    /// The object that the slot at `slot` refers to; zero for null.
    fn load_edge(&self, slot: u64) -> (object: u64)
        ensures
            self.loads(slot, object),
    ;

    /// Whether the runtime's own check accepts `object`.
    fn is_object_sane(&self, object: u64) -> (sane: bool)
        ensures
            self.object_sane_is(object, sane),
    ;

    /// Whether `object` is an array that holds no references.
    fn is_val_array(&self, object: u64) -> (yes: bool)
        ensures
            self.val_array_is(object, yes),
    ;

    /// Whether `object` is an array of references.
    fn is_obj_array(&self, object: u64) -> (yes: bool)
        ensures
            self.obj_array_is(object, yes),
    ;

    /// The slots of `object` that hold references, in scan order.
    fn scan_object(&self, object: u64) -> (slots: Vec<u64>)
        ensures
            self.scans(object, slots@),
    ;

    /// Where the instance-mirror part of `object` starts and how many
    /// fields it has, for an object that carries one.
    fn instance_mirror_info(&self, object: u64) -> (info: Option<(u64, u64)>)
        ensures
            self.mirror_is(object, info),
    ;

    /// The class identifier of `object`.
    fn get_klass(&self, object: u64) -> (klass: u64)
        ensures
            self.klass_is(object, klass),
    ;

    /// The size of `object` in bytes, as it is now.
    fn get_current_size(&self, object: u64) -> (size: u64)
        ensures
            self.size_is(object, size),
    ;
}

} // verus!
