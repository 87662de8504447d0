//! Keyed storage for values of one type: an append-only arena handing out
//! index handles, and a label-plus-type identity for naming resources.

use vstd::prelude::*;

verus! {

/// Declares `core::any::TypeId` so that it can be held in a field: an
/// opaque identity of a static type, relied on only through the derived
/// equality and hash of [`ResourceId`], which nothing here proves
/// anything about.
#[verifier::external_type_specification]
#[verifier::external_body]
pub struct ExTypeId(core::any::TypeId);

/// Relies on `core::any::TypeId::of`: the identity of the type `T`.
/// Nothing is assumed of the returned value.
pub assume_specification<T: ?Sized + 'static>[ core::any::TypeId::of::<T> ]() -> (r:
    core::any::TypeId);

/// A stable identity for one resource of type `T`: the type together
/// with a label, so that two ids are equal exactly when both their types
/// and their labels are.
#[derive(Debug, PartialEq, Eq)]
pub struct ResourceId<T: 'static> {
    label: String,
    type_id: core::any::TypeId,
    _marker: core::marker::PhantomData<T>,
}

impl<T: 'static> core::hash::Hash for ResourceId<T> {
    /// Relies on `Hash` for the pair of a `String` and a
    /// `core::any::TypeId`: the id hashes its label and its type
    /// identity, and nothing of `T`'s own values, so ids of one type and
    /// label hash alike.
    #[verifier::external_body]
    fn hash<S: core::hash::Hasher>(&self, state: &mut S) {
        (&self.label, &self.type_id).hash(state)
    }
}

impl<T: 'static> ResourceId<T> {
    /// The id's label.
    pub closed spec fn label_spec(&self) -> Seq<char> {
        self.label@
    }

    /// Names the resource of type `T` called `label`.
    pub fn new(label: &str) -> (r: ResourceId<T>)
        ensures
            r.label_spec() == label@,
    {
        ResourceId {
            label: label.to_owned(),
            type_id: core::any::TypeId::of::<T>(),
            _marker: core::marker::PhantomData,
        }
    }
}

/// A handle to one value of a [`Resources`] arena: the index it was
/// stored under.
#[derive(Debug)]
pub struct ResourceHandle<T> {
    index: usize,
    _marker: core::marker::PhantomData<T>,
}

impl<T> ResourceHandle<T> {
    /// The index this handle points at.
    pub closed spec fn idx(&self) -> int {
        self.index as int
    }
}

/// An append-only arena of values of one type, addressed by the handles
/// `add` hands out.
pub struct Resources<T> {
    storage: Vec<T>,
}

impl<T> Resources<T> {
    /// Appends a resource and hands out the handle that addresses it.
    pub fn add(&mut self, resource: T) -> (h: ResourceHandle<T>)
        ensures
            final(self)@ == old(self)@.push(resource),
            h.idx() == old(self)@.len(),
    {
        let index = self.storage.len();
        self.storage.push(resource);
        ResourceHandle { index, _marker: core::marker::PhantomData }
    }

    /// The resource a handle addresses, or nothing when the handle does
    /// not point into this arena.
    pub fn get(&self, handle: &ResourceHandle<T>) -> (r: Option<&T>)
        ensures
            match r {
                Some(v) => handle.idx() < self@.len() && *v == self@[handle.idx()],
                None => handle.idx() >= self@.len(),
            },
    {
        if handle.index < self.storage.len() {
            Some(&self.storage[handle.index])
        } else {
            None
        }
    }
}

impl<T> Default for Resources<T> {
    /// The empty arena.
    fn default() -> (r: Self)
        ensures
            r@ == Seq::<T>::empty(),
    {
        Resources { storage: Vec::new() }
    }
}

impl<T> View for Resources<T> {
    type V = Seq<T>;

    closed spec fn view(&self) -> Seq<T> {
        self.storage@
    }
}

} // verus!
