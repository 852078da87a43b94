//! Short lists that are kept without a heap allocation while they are short.
//!
//! Each of them is a `SmallVec`, held in a private field. What it holds is named by a function,
//! and the methods that call into `smallvec` say what they do to it.
use crate::client::Offset;
use crate::entity::Drawable;
use crate::packets::{NewObject, ObjectInfo};
use smallvec::SmallVec;
use vstd::prelude::*;

verus! {

/// A `SmallVec` with the score of each team.
#[verifier::external_body]
pub struct Scores {
    list: SmallVec<[u32; 8]>,
}

/// The scores that a list holds, in order.
pub uninterp spec fn scores_held(list: Scores) -> Seq<u32>;

impl View for Scores {
    type V = Seq<u32>;

    open spec fn view(&self) -> Seq<u32> {
        scores_held(*self)
    }
}

impl Scores {
    /// Trusted: `SmallVec::from_vec` holds what the vector held, in its order.
    #[verifier::external_body]
    pub(crate) fn from_vec(scores: Vec<u32>) -> (list: Scores)
        ensures
            scores_held(list) == scores@,
    {
        Scores { list: SmallVec::from_vec(scores) }
    }

    /// Trusted: `SmallVec::as_slice` shows what the list holds.
    #[verifier::external_body]
    pub(crate) fn as_slice(&self) -> (scores: &[u32])
        ensures
            scores@ == scores_held(*self),
    {
        self.list.as_slice()
    }

    /// Trusted: `IndexMut::index_mut` of a `SmallVec` gives access to the element at a place
    /// of the list; it panics where the place is out of bounds. Writing through it changes
    /// that element and no other.
    #[verifier::external_body]
    pub(crate) fn set(&mut self, place: usize, score: u32)
        requires
            place < scores_held(*old(self)).len(),
        ensures
            scores_held(*final(self)) == scores_held(*old(self)).update(place as int, score),
    {
        self.list[place] = score;
    }

    /// Trusted: `Clone::clone` of a `SmallVec` of numbers holds the same numbers.
    #[verifier::external_body]
    pub(crate) fn duplicate(&self) -> (list: Scores)
        ensures
            scores_held(list) == scores_held(*self),
    {
        Scores { list: self.list.clone() }
    }

    /// Makes the list of the given scores.
    pub fn from_items(scores: Vec<u32>) -> (list: Scores)
        ensures
            list@ == scores@,
    {
        Scores::from_vec(scores)
    }

    /// The scores, in order.
    pub fn items(&self) -> (scores: Vec<u32>)
        ensures
            scores@ == self@,
    {
        let shown = self.as_slice();
        let mut scores: Vec<u32> = Vec::new();
        for i in 0..shown.len()
            invariant
                scores@ == shown@.take(i as int),
        {
            scores.push(shown[i]);
            assert(shown@.take(i + 1) =~= shown@.take(i as int).push(shown@[i as int]));
        }
        assert(shown@.take(shown@.len() as int) =~= shown@);
        scores
    }
}

/// A `SmallVec` with the offsets at which an object is drawn.
#[verifier::external_body]
pub struct Offsets {
    list: SmallVec<[Offset; 3]>,
}

/// What a list holds, in order: the offsets at which an object is drawn.
pub uninterp spec fn offsets_held(list: Offsets) -> Seq<Offset>;

impl View for Offsets {
    type V = Seq<Offset>;

    open spec fn view(&self) -> Seq<Offset> {
        offsets_held(*self)
    }
}

impl Offsets {
    /// Trusted: `SmallVec::new` holds nothing.
    #[verifier::external_body]
    pub(crate) fn new() -> (list: Offsets)
        ensures
            offsets_held(list) == Seq::<Offset>::empty(),
    {
        Offsets { list: SmallVec::new() }
    }

    /// Trusted: `SmallVec::push` adds one element at the end.
    #[verifier::external_body]
    pub(crate) fn push(&mut self, item: Offset)
        ensures
            offsets_held(*final(self)) == offsets_held(*old(self)).push(item),
    {
        self.list.push(item)
    }

    /// Trusted: `SmallVec::as_slice` shows what the list holds.
    #[verifier::external_body]
    pub(crate) fn as_slice(&self) -> (items: &[Offset])
        ensures
            items@ == offsets_held(*self),
    {
        self.list.as_slice()
    }

    /// The items, in order.
    pub fn items(&self) -> (items: Vec<Offset>)
        ensures
            items@ == self@,
    {
        let shown = self.as_slice();
        let mut items: Vec<Offset> = Vec::new();
        for i in 0..shown.len()
            invariant
                items@ == shown@.take(i as int),
        {
            items.push(shown[i]);
            assert(shown@.take(i + 1) =~= shown@.take(i as int).push(shown@[i as int]));
        }
        assert(shown@.take(shown@.len() as int) =~= shown@);
        items
    }
}

/// A `SmallVec` with the ids of objects that are gone.
#[verifier::external_body]
pub struct DeletedIds {
    list: SmallVec<[u32; 4]>,
}

/// What a list holds, in order: the ids of objects that are gone.
pub uninterp spec fn deleted_ids_held(list: DeletedIds) -> Seq<u32>;

impl View for DeletedIds {
    type V = Seq<u32>;

    open spec fn view(&self) -> Seq<u32> {
        deleted_ids_held(*self)
    }
}

impl DeletedIds {
    /// Trusted: `SmallVec::new` holds nothing.
    #[verifier::external_body]
    pub(crate) fn new() -> (list: DeletedIds)
        ensures
            deleted_ids_held(list) == Seq::<u32>::empty(),
    {
        DeletedIds { list: SmallVec::new() }
    }

    /// Trusted: `SmallVec::push` adds one element at the end.
    #[verifier::external_body]
    pub(crate) fn push(&mut self, item: u32)
        ensures
            deleted_ids_held(*final(self)) == deleted_ids_held(*old(self)).push(item),
    {
        self.list.push(item)
    }

    /// Trusted: `SmallVec::as_slice` shows what the list holds.
    #[verifier::external_body]
    pub(crate) fn as_slice(&self) -> (items: &[u32])
        ensures
            items@ == deleted_ids_held(*self),
    {
        self.list.as_slice()
    }

    /// Makes the list of the given items.
    pub fn from_items(items: &[u32]) -> (list: DeletedIds)
        ensures
            list@ == items@,
    {
        let mut list = DeletedIds::new();
        assert(items@.take(0) =~= Seq::empty());
        for i in 0..items.len()
            invariant
                list@ == items@.take(i as int),
        {
            list.push(items[i]);
            assert(items@.take(i + 1) =~= items@.take(i as int).push(items@[i as int]));
        }
        assert(items@.take(items@.len() as int) =~= items@);
        list
    }

    /// The items, in order.
    pub fn items(&self) -> (items: Vec<u32>)
        ensures
            items@ == self@,
    {
        let shown = self.as_slice();
        let mut items: Vec<u32> = Vec::new();
        for i in 0..shown.len()
            invariant
                items@ == shown@.take(i as int),
        {
            items.push(shown[i]);
            assert(shown@.take(i + 1) =~= shown@.take(i as int).push(shown@[i as int]));
        }
        assert(shown@.take(shown@.len() as int) =~= shown@);
        items
    }
}

/// A `SmallVec` with objects that have appeared.
#[verifier::external_body]
pub struct NewObjects {
    list: SmallVec<[NewObject; 4]>,
}

/// What a list holds, in order: objects that have appeared.
pub uninterp spec fn new_objects_held(list: NewObjects) -> Seq<NewObject>;

impl View for NewObjects {
    type V = Seq<NewObject>;

    open spec fn view(&self) -> Seq<NewObject> {
        new_objects_held(*self)
    }
}

impl NewObjects {
    /// Trusted: `SmallVec::new` holds nothing.
    #[verifier::external_body]
    pub(crate) fn new() -> (list: NewObjects)
        ensures
            new_objects_held(list) == Seq::<NewObject>::empty(),
    {
        NewObjects { list: SmallVec::new() }
    }

    /// Trusted: `SmallVec::push` adds one element at the end.
    #[verifier::external_body]
    pub(crate) fn push(&mut self, item: NewObject)
        ensures
            new_objects_held(*final(self)) == new_objects_held(*old(self)).push(item),
    {
        self.list.push(item)
    }

    /// Trusted: `SmallVec::as_slice` shows what the list holds.
    #[verifier::external_body]
    pub(crate) fn as_slice(&self) -> (items: &[NewObject])
        ensures
            items@ == new_objects_held(*self),
    {
        self.list.as_slice()
    }

    /// Makes the list of the given items.
    pub fn from_items(items: &[NewObject]) -> (list: NewObjects)
        ensures
            list@ == items@,
    {
        let mut list = NewObjects::new();
        assert(items@.take(0) =~= Seq::empty());
        for i in 0..items.len()
            invariant
                list@ == items@.take(i as int),
        {
            list.push(items[i]);
            assert(items@.take(i + 1) =~= items@.take(i as int).push(items@[i as int]));
        }
        assert(items@.take(items@.len() as int) =~= items@);
        list
    }

    /// The items, in order.
    pub fn items(&self) -> (items: Vec<NewObject>)
        ensures
            items@ == self@,
    {
        let shown = self.as_slice();
        let mut items: Vec<NewObject> = Vec::new();
        for i in 0..shown.len()
            invariant
                items@ == shown@.take(i as int),
        {
            items.push(shown[i]);
            assert(shown@.take(i + 1) =~= shown@.take(i as int).push(shown@[i as int]));
        }
        assert(shown@.take(shown@.len() as int) =~= shown@);
        items
    }
}

/// A `SmallVec` with all objects of the field, by id.
#[verifier::external_body]
pub struct ObjectList {
    list: SmallVec<[(u32, (Drawable, ObjectInfo)); 128]>,
}

/// What a list holds, in order: all objects of the field, by id.
pub uninterp spec fn object_list_held(list: ObjectList) -> Seq<(u32, (Drawable, ObjectInfo))>;

impl View for ObjectList {
    type V = Seq<(u32, (Drawable, ObjectInfo))>;

    open spec fn view(&self) -> Seq<(u32, (Drawable, ObjectInfo))> {
        object_list_held(*self)
    }
}

impl ObjectList {
    /// Trusted: `SmallVec::new` holds nothing.
    #[verifier::external_body]
    pub(crate) fn new() -> (list: ObjectList)
        ensures
            object_list_held(list) == Seq::<(u32, (Drawable, ObjectInfo))>::empty(),
    {
        ObjectList { list: SmallVec::new() }
    }

    /// Trusted: `SmallVec::push` adds one element at the end.
    #[verifier::external_body]
    pub(crate) fn push(&mut self, item: (u32, (Drawable, ObjectInfo)))
        ensures
            object_list_held(*final(self)) == object_list_held(*old(self)).push(item),
    {
        self.list.push(item)
    }

    /// Trusted: `SmallVec::as_slice` shows what the list holds.
    #[verifier::external_body]
    pub(crate) fn as_slice(&self) -> (items: &[(u32, (Drawable, ObjectInfo))])
        ensures
            items@ == object_list_held(*self),
    {
        self.list.as_slice()
    }

    /// Makes the list of the given items.
    pub fn from_items(items: &[(u32, (Drawable, ObjectInfo))]) -> (list: ObjectList)
        ensures
            list@ == items@,
    {
        let mut list = ObjectList::new();
        assert(items@.take(0) =~= Seq::empty());
        for i in 0..items.len()
            invariant
                list@ == items@.take(i as int),
        {
            list.push(items[i]);
            assert(items@.take(i + 1) =~= items@.take(i as int).push(items@[i as int]));
        }
        assert(items@.take(items@.len() as int) =~= items@);
        list
    }

    /// The items, in order.
    pub fn items(&self) -> (items: Vec<(u32, (Drawable, ObjectInfo))>)
        ensures
            items@ == self@,
    {
        let shown = self.as_slice();
        let mut items: Vec<(u32, (Drawable, ObjectInfo))> = Vec::new();
        for i in 0..shown.len()
            invariant
                items@ == shown@.take(i as int),
        {
            items.push(shown[i]);
            assert(shown@.take(i + 1) =~= shown@.take(i as int).push(shown@[i as int]));
        }
        assert(shown@.take(shown@.len() as int) =~= shown@);
        items
    }
}

/// A `SmallVec` with where the objects of the field are, by id.
#[verifier::external_body]
pub struct InfoList {
    list: SmallVec<[(u32, ObjectInfo); 128]>,
}

/// What a list holds, in order: where the objects of the field are, by id.
pub uninterp spec fn info_list_held(list: InfoList) -> Seq<(u32, ObjectInfo)>;

impl View for InfoList {
    type V = Seq<(u32, ObjectInfo)>;

    open spec fn view(&self) -> Seq<(u32, ObjectInfo)> {
        info_list_held(*self)
    }
}

impl InfoList {
    /// Trusted: `SmallVec::new` holds nothing.
    #[verifier::external_body]
    pub(crate) fn new() -> (list: InfoList)
        ensures
            info_list_held(list) == Seq::<(u32, ObjectInfo)>::empty(),
    {
        InfoList { list: SmallVec::new() }
    }

    /// Trusted: `SmallVec::push` adds one element at the end.
    #[verifier::external_body]
    pub(crate) fn push(&mut self, item: (u32, ObjectInfo))
        ensures
            info_list_held(*final(self)) == info_list_held(*old(self)).push(item),
    {
        self.list.push(item)
    }

    /// Trusted: `SmallVec::as_slice` shows what the list holds.
    #[verifier::external_body]
    pub(crate) fn as_slice(&self) -> (items: &[(u32, ObjectInfo)])
        ensures
            items@ == info_list_held(*self),
    {
        self.list.as_slice()
    }

    /// Makes the list of the given items.
    pub fn from_items(items: &[(u32, ObjectInfo)]) -> (list: InfoList)
        ensures
            list@ == items@,
    {
        let mut list = InfoList::new();
        assert(items@.take(0) =~= Seq::empty());
        for i in 0..items.len()
            invariant
                list@ == items@.take(i as int),
        {
            list.push(items[i]);
            assert(items@.take(i + 1) =~= items@.take(i as int).push(items@[i as int]));
        }
        assert(items@.take(items@.len() as int) =~= items@);
        list
    }

    /// The items, in order.
    pub fn items(&self) -> (items: Vec<(u32, ObjectInfo)>)
        ensures
            items@ == self@,
    {
        let shown = self.as_slice();
        let mut items: Vec<(u32, ObjectInfo)> = Vec::new();
        for i in 0..shown.len()
            invariant
                items@ == shown@.take(i as int),
        {
            items.push(shown[i]);
            assert(shown@.take(i + 1) =~= shown@.take(i as int).push(shown@[i as int]));
        }
        assert(shown@.take(shown@.len() as int) =~= shown@);
        items
    }
}

} // verus!
